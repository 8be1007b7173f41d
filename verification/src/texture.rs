use crate::ids::TextureId;
use crate::storage2::{named_as, StorageElem2, Storage2};
use crate::text::same_text;
use vstd::prelude::*;

verus! {

/// The file a texture is loaded from.
#[derive(Debug, Clone)]
pub struct TextureName(pub String);

impl TextureName {
    /// The name of the shader variable that holds the texture named `s`: `s` followed by `_tex`.
    pub fn name(s: &str) -> (result: String)
        ensures
            result@ == s@ + seq!['_', 't', 'e', 'x'],
    {
        let mut result = String::from_str(s);
        result.append("_tex");
        proof {
            reveal_strlit("_tex");
        }
        assert(result@ =~= s@ + seq!['_', 't', 'e', 'x']);
        result
    }
}

impl Default for TextureName {
    /// The portal texture that ships with the program.
    fn default() -> (result: Self)
        ensures
            result.0@ == "scenes/monoportal.png"@,
    {
        TextureName(String::from_str("scenes/monoportal.png"))
    }
}

impl StorageElem2 for TextureName {
    type IdWrapper = TextureId;

    open spec fn fields(&self) -> Seq<TextureId> {
        Seq::empty()
    }

    fn field_ids(&self) -> (result: Vec<TextureId>) {
        Vec::new()
    }

    open spec fn with_fields(&self, ids: Seq<Option<TextureId>>) -> Self {
        *self
    }

    fn replace_fields(self, ids: &Vec<Option<TextureId>>) -> (result: Self) {
        self
    }

    open spec fn is_default(&self) -> bool {
        self.0@ == "scenes/monoportal.png"@
    }

    fn new_default() -> (result: Self) {
        TextureName::default()
    }
}

/// The names in `s`, each kept at its first occurrence only.
pub open spec fn first_occurrences(s: Seq<Seq<char>>) -> Seq<Seq<char>>
    decreases s.len(),
{
    if s.len() == 0 {
        Seq::<Seq<char>>::empty()
    } else if first_occurrences(s.drop_last()).contains(s.last()) {
        first_occurrences(s.drop_last())
    } else {
        first_occurrences(s.drop_last()).push(s.last())
    }
}

/// Whether `name` is among `names`.
fn contains_text(names: &Vec<String>, name: &str) -> (result: bool)
    ensures
        result == names@.map_values(|n: String| n@).contains(name@),
{
    let ghost v = names@.map_values(|n: String| n@);
    let mut i: usize = 0;
    while i < names.len()
        invariant
            v == names@.map_values(|n: String| n@),
            i <= names@.len(),
            forall|j: int| 0 <= j < i ==> v[j] != name@,
        decreases names@.len() - i,
    {
        if same_text(names[i].as_str(), name) {
            assert(v[i as int] == name@);
            return true;
        }
        i = i + 1;
    }
    false
}

/// Adds `name` to `seen`, and its texture variable to `result`, unless it was seen already.
fn add_first_occurrence(seen: &mut Vec<String>, result: &mut Vec<String>, name: &str)
    requires
        old(result)@.len() == old(seen)@.len(),
        forall|j: int| 0 <= j < old(result)@.len() ==> (#[trigger] old(result)@[j])@ == old(seen)@[j]@ + seq!['_', 't', 'e', 'x'],
    ensures
        final(seen)@.map_values(|s: String| s@) == if old(seen)@.map_values(|s: String| s@).contains(name@) {
            old(seen)@.map_values(|s: String| s@)
        } else {
            old(seen)@.map_values(|s: String| s@).push(name@)
        },
        final(result)@.len() == final(seen)@.len(),
        forall|j: int| 0 <= j < final(result)@.len() ==> (#[trigger] final(result)@[j])@ == final(seen)@[j]@ + seq!['_', 't', 'e', 'x'],
{
    if !contains_text(seen, name) {
        let ghost before = seen@;
        seen.push(String::from_str(name));
        result.push(TextureName::name(name));
        assert(seen@.map_values(|s: String| s@) =~= before.map_values(|s: String| s@).push(name@));
    }
}

/// The texture variables of the shader: for each name of a listed texture, then of a
/// listed video, at its first occurrence, the name followed by `_tex`.
pub fn textures<A: StorageElem2, B: StorageElem2>(texture_storage: &Storage2<A>, video_storage: &Storage2<B>) -> (result: Vec<String>)
    requires
        texture_storage.wf(),
        video_storage.wf(),
    ensures
        exists|names: Seq<Seq<char>>| {
            &&& names.len() == texture_storage.order().len() + video_storage.order().len()
            &&& forall|i: int| 0 <= i < texture_storage.order().len() ==> named_as(texture_storage.elements()[texture_storage.order()[i]], #[trigger] names[i])
            &&& forall|i: int| 0 <= i < video_storage.order().len() ==> named_as(video_storage.elements()[video_storage.order()[i]], #[trigger] names[texture_storage.order().len() + i])
            &&& result@.len() == first_occurrences(names).len()
            &&& forall|i: int| 0 <= i < result@.len() ==> (#[trigger] result@[i])@ == first_occurrences(names)[i] + seq!['_', 't', 'e', 'x']
        },
{
    let t = texture_storage.visible_elements();
    let v = video_storage.visible_elements();
    let ghost names = t@.map_values(|e: (A::IdWrapper, &str)| e.1@) + v@.map_values(|e: (B::IdWrapper, &str)| e.1@);
    let mut seen: Vec<String> = Vec::new();
    let mut result: Vec<String> = Vec::new();
    let mut i: usize = 0;
    while i < t.len()
        invariant
            names == t@.map_values(|e: (A::IdWrapper, &str)| e.1@) + v@.map_values(|e: (B::IdWrapper, &str)| e.1@),
            i <= t@.len(),
            seen@.map_values(|s: String| s@) == first_occurrences(names.subrange(0, i as int)),
            result@.len() == seen@.len(),
            forall|j: int| 0 <= j < result@.len() ==> (#[trigger] result@[j])@ == seen@[j]@ + seq!['_', 't', 'e', 'x'],
        decreases t@.len() - i,
    {
        let name: &str = t[i].1;
        assert(name@ == names[i as int]);
        proof {
            assert(names.subrange(0, i + 1).drop_last() =~= names.subrange(0, i as int));
        }
        add_first_occurrence(&mut seen, &mut result, name);
        i = i + 1;
    }
    let mut k: usize = 0;
    while k < v.len()
        invariant
            names == t@.map_values(|e: (A::IdWrapper, &str)| e.1@) + v@.map_values(|e: (B::IdWrapper, &str)| e.1@),
            k <= v@.len(),
            seen@.map_values(|s: String| s@) == first_occurrences(names.subrange(0, t@.len() + k)),
            result@.len() == seen@.len(),
            forall|j: int| 0 <= j < result@.len() ==> (#[trigger] result@[j])@ == seen@[j]@ + seq!['_', 't', 'e', 'x'],
        decreases v@.len() - k,
    {
        let name: &str = v[k].1;
        assert(name@ == names[t@.len() + k]);
        proof {
            assert(names.subrange(0, t@.len() + k + 1).drop_last() =~= names.subrange(0, t@.len() + k));
        }
        add_first_occurrence(&mut seen, &mut result, name);
        k = k + 1;
    }
    proof {
        assert(names.subrange(0, t@.len() + k) =~= names);
        let ghost w = names;
        assert forall|a: int| 0 <= a < texture_storage.order().len() implies named_as(texture_storage.elements()[texture_storage.order()[a]], #[trigger] w[a]) by {
            assert(w[a] == t@[a].1@);
        }
        assert forall|a: int| 0 <= a < video_storage.order().len() implies named_as(video_storage.elements()[video_storage.order()[a]], #[trigger] w[texture_storage.order().len() + a]) by {
            assert(w[t@.len() + a] == v@[a].1@);
        }
    }
    result
}

} // verus!
