use crate::animation::CurrentStage;
use crate::ids::{AnimationId, RealAnimationId, Wrapper};
use crate::storage2::{inner_value, named_as, Storage2, StorageElem2, StorageInner};
use crate::unique_id::UniqueId;
use vstd::prelude::*;

verus! {

/// The stage a saved scene shows, with stages and animations referred to by name.
#[derive(Debug, Clone, PartialEq, Eq)]
pub enum CurrentStageSer {
    Dev,
    Animation(String),
    RealAnimation(String),
}

/// The name saved for entry `id` of `m`: its name, or `?` when it has none or is missing.
pub open spec fn saved_name<T>(m: Map<usize, StorageInner<T>>, id: usize) -> Seq<char> {
    if m.contains_key(id) {
        match m[id] {
            StorageInner::Named(_, n) => n@,
            StorageInner::Inline(_) => "?"@,
        }
    } else {
        "?"@
    }
}

/// Whether `k` is the first listed entry of `s` named `name`.
pub open spec fn first_named<T: StorageElem2>(s: &Storage2<T>, name: Seq<char>, k: usize) -> bool {
    exists|i: int|
        0 <= i < s.order().len() && #[trigger] s.order()[i] == k && named_as(s.elements()[s.order()[i]], name)
            && forall|j: int| 0 <= j < i ==> !named_as(s.elements()[#[trigger] s.order()[j]], name)
}

/// Whether no listed entry of `s` is named `name`.
pub open spec fn none_named<T: StorageElem2>(s: &Storage2<T>, name: Seq<char>) -> bool {
    forall|i: int| 0 <= i < s.order().len() ==> !named_as(s.elements()[#[trigger] s.order()[i]], name)
}

/// The name saved for entry `id`.
fn name_for_saving<T: StorageElem2>(s: &Storage2<T>, id: usize) -> (result: String)
    ensures
        result@ == saved_name(s.elements(), id),
{
    match s.get_name(T::IdWrapper::wrap(UniqueId(id))) {
        Some(Some(n)) => n.to_owned(),
        _ => "?".to_owned(),
    }
}

/// The stage as saved: the developer's setup, or the name of the animation stage or of the
/// animation shown (`?` when it has none).
pub fn current_stage_to_ser<S: StorageElem2, R: StorageElem2>(
    stage: CurrentStage,
    animation_stages: &Storage2<S>,
    animations: &Storage2<R>,
) -> (result: CurrentStageSer)
    ensures
        match stage {
            CurrentStage::Dev => result == CurrentStageSer::Dev,
            CurrentStage::Animation(id) => result matches CurrentStageSer::Animation(n) && n@ == saved_name(
                animation_stages.elements(),
                id.0.0,
            ),
            CurrentStage::RealAnimation(id) => result matches CurrentStageSer::RealAnimation(n) && n@ == saved_name(
                animations.elements(),
                id.0.0,
            ),
        },
{
    match stage {
        CurrentStage::Dev => CurrentStageSer::Dev,
        CurrentStage::Animation(id) => CurrentStageSer::Animation(name_for_saving(animation_stages, id.0.0)),
        CurrentStage::RealAnimation(id) => CurrentStageSer::RealAnimation(name_for_saving(animations, id.0.0)),
    }
}

/// The stage of a saved scene: the first listed animation stage or animation of the saved
/// name, or the developer's setup when there is none.
pub fn current_stage_from_ser<S: StorageElem2, R: StorageElem2>(
    s: CurrentStageSer,
    animation_stages: &Storage2<S>,
    animations: &Storage2<R>,
) -> (result: CurrentStage)
    requires
        animation_stages.wf(),
        animations.wf(),
    ensures
        match s {
            CurrentStageSer::Dev => result == CurrentStage::Dev,
            CurrentStageSer::Animation(name) => match result {
                CurrentStage::Animation(id) => first_named(animation_stages, name@, id.0.0),
                CurrentStage::Dev => none_named(animation_stages, name@),
                CurrentStage::RealAnimation(_) => false,
            },
            CurrentStageSer::RealAnimation(name) => match result {
                CurrentStage::RealAnimation(id) => first_named(animations, name@, id.0.0),
                CurrentStage::Dev => none_named(animations, name@),
                CurrentStage::Animation(_) => false,
            },
        },
{
    match s {
        CurrentStageSer::Dev => CurrentStage::Dev,
        CurrentStageSer::Animation(name) => match animation_stages.find_id(name.as_str()) {
            Some(w) => CurrentStage::Animation(AnimationId(w.un_wrap())),
            None => CurrentStage::Dev,
        },
        CurrentStageSer::RealAnimation(name) => match animations.find_id(name.as_str()) {
            Some(w) => CurrentStage::RealAnimation(RealAnimationId(w.un_wrap())),
            None => CurrentStage::Dev,
        },
    }
}

/// The first listed entry of a name is one entry.
pub proof fn lemma_first_named_unique<T: StorageElem2>(s: &Storage2<T>, name: Seq<char>, k1: usize, k2: usize)
    requires
        s.wf(),
        first_named(s, name, k1),
        first_named(s, name, k2),
    ensures
        k1 == k2,
{
    let i1 = choose|i: int|
        0 <= i < s.order().len() && #[trigger] s.order()[i] == k1 && named_as(s.elements()[s.order()[i]], name)
            && forall|j: int| 0 <= j < i ==> !named_as(s.elements()[#[trigger] s.order()[j]], name);
    let i2 = choose|i: int|
        0 <= i < s.order().len() && #[trigger] s.order()[i] == k2 && named_as(s.elements()[s.order()[i]], name)
            && forall|j: int| 0 <= j < i ==> !named_as(s.elements()[#[trigger] s.order()[j]], name);
    if i1 < i2 {
        assert(!named_as(s.elements()[s.order()[i1]], name));
    } else if i2 < i1 {
        assert(!named_as(s.elements()[s.order()[i2]], name));
    }
}

/// Saving the stage `id` of `s` and reading it back gives `id` again, when `id` is listed and
/// no earlier listed entry has its name.
pub proof fn lemma_stage_roundtrip<T: StorageElem2>(s: &Storage2<T>, id: usize, i: int, k: usize)
    requires
        s.wf(),
        0 <= i < s.order().len(),
        s.order()[i] == id,
        forall|j: int| 0 <= j < i ==> !named_as(s.elements()[#[trigger] s.order()[j]], saved_name(s.elements(), id)),
        first_named(s, saved_name(s.elements(), id), k),
    ensures
        k == id,
{
    s.lemma_listed_are_named();
    assert(s.order().contains(id));
    let name = saved_name(s.elements(), id);
    assert(named_as(s.elements()[s.order()[i]], name));
    assert(first_named(s, name, id));
    lemma_first_named_unique(s, name, k, id);
}

/// How a saved element refers to another element of its storage: by name when that one is
/// named, or by holding a copy of it, with its own fields saved in turn, when it is
/// anonymous.
#[derive(Debug, PartialEq)]
pub enum TreeRef<T> {
    Named(String),
    Inline(T, Vec<Option<TreeRef<T>>>),
}

/// Whether `t` is how entry `id` of `m` is saved while the anonymous entries in `path` are
/// being saved already: nothing for a missing entry or one on the path (a cycle is cut
/// there), its name for a named entry, else a copy of its value with each of its fields
/// saved in turn. `fuel` bounds the depth.
pub open spec fn saved_as<T: StorageElem2>(m: Map<usize, StorageInner<T>>, id: usize, path: Seq<usize>, fuel: nat, t: Option<TreeRef<T>>) -> bool
    decreases fuel,
{
    if !m.contains_key(id) {
        t is None
    } else {
        match m[id] {
            StorageInner::Named(_, n) => t matches Some(TreeRef::Named(s)) && s@ == n@,
            StorageInner::Inline(v) => if path.contains(id) {
                t is None
            } else if fuel == 0 {
                false
            } else {
                match t {
                    Some(TreeRef::Inline(v2, children)) => {
                        &&& cloned(v, v2)
                        &&& children@.len() == v.fields().len()
                        &&& forall|i: int|
                            0 <= i < children@.len() ==> saved_as(
                                m,
                                #[trigger] v.fields()[i].id_of().0,
                                path.push(id),
                                (fuel - 1) as nat,
                                children@[i],
                            )
                    },
                    _ => false,
                }
            },
        }
    }
}

/// A path of distinct entries is no longer than the number of entries, and shorter when an
/// entry is off it.
proof fn lemma_path_shorter(dom: Set<usize>, path: Seq<usize>, id: usize)
    requires
        dom.finite(),
        path.no_duplicates(),
        forall|i: int| 0 <= i < path.len() ==> dom.contains(#[trigger] path[i]),
    ensures
        path.len() <= dom.len(),
        dom.contains(id) && !path.contains(id) ==> path.len() < dom.len(),
{
    path.unique_seq_to_set();
    assert(path.to_set().subset_of(dom));
    vstd::set_lib::lemma_len_subset(path.to_set(), dom);
    if dom.contains(id) && !path.contains(id) {
        assert(!path.to_set().contains(id));
        vstd::set_lib::lemma_len_subset(path.to_set().insert(id), dom);
    }
}

/// Saves entry `id` of `s` as a reference, while the anonymous entries in `visited` are
/// being saved already; `visited` is left as it was.
pub fn to_tree<T: StorageElem2>(s: &Storage2<T>, id: T::IdWrapper, visited: &mut Vec<usize>) -> (result: Option<TreeRef<T>>)
    requires
        s.wf(),
        old(visited)@.no_duplicates(),
        forall|i: int| 0 <= i < old(visited)@.len() ==> s.elements().contains_key(#[trigger] old(visited)@[i]),
    ensures
        final(visited)@ == old(visited)@,
        saved_as(s.elements(), id.id_of().0, old(visited)@, (s.elements().dom().len() - old(visited)@.len()) as nat, result),
    decreases s.elements().dom().len() - old(visited)@.len(),
{
    let ghost m = s.elements();
    let ghost path = visited@;
    let k = id.un_wrap().0;
    proof {
        s.lemma_finite();
        lemma_path_shorter(m.dom(), path, k);
    }
    match s.get_name(id) {
        None => None,
        Some(Some(name)) => Some(TreeRef::Named(name.to_owned())),
        Some(None) => {
            let mut i: usize = 0;
            while i < visited.len()
                invariant
                    visited@ == path,
                    old(visited)@ == path,
                    id.id_of().0 == k,
                    m == s.elements(),
                    m.contains_key(k),
                    m[k] is Inline,
                    i <= path.len(),
                    forall|a: int| 0 <= a < i ==> path[a] != k,
                decreases path.len() - i,
            {
                if visited[i] == k {
                    assert(path[i as int] == k);
                    return None;
                }
                i = i + 1;
            }
            assert(!path.contains(k));
            let elem = s.get_original(id).unwrap();
            let value = elem.clone();
            let fields = elem.field_ids();
            let ghost v = inner_value(m[k]);
            let ghost path1 = path.push(k);
            visited.push(k);
            proof {
                assert(visited@ == path1);
                assert(path1.no_duplicates()) by {
                    assert forall|a: int, b: int| 0 <= a < path1.len() && 0 <= b < path1.len() && a != b implies path1[a] != path1[b] by {
                        if a < path.len() && b < path.len() {
                            assert(path[a] != path[b]);
                        } else if a < path.len() {
                            assert(path.contains(path[a]));
                        } else {
                            assert(path.contains(path[b]));
                        }
                    }
                }
            }
            let mut children: Vec<Option<TreeRef<T>>> = Vec::new();
            let mut j: usize = 0;
            while j < fields.len()
                invariant
                    s.wf(),
                    m == s.elements(),
                    m.dom().finite(),
                    old(visited)@ == path,
                    visited@ == path1,
                    path1.no_duplicates(),
                    forall|a: int| 0 <= a < path1.len() ==> m.contains_key(#[trigger] path1[a]),
                    path1.len() == path.len() + 1,
                    path1.len() <= m.dom().len(),
                    fields@ == v.fields(),
                    j <= fields@.len(),
                    children@.len() == j,
                    forall|a: int| 0 <= a < j ==> saved_as(
                        m,
                        #[trigger] v.fields()[a].id_of().0,
                        path1,
                        (m.dom().len() - path1.len()) as nat,
                        children@[a],
                    ),
                decreases fields@.len() - j,
            {
                let child = to_tree(s, fields[j], visited);
                children.push(child);
                j = j + 1;
            }
            visited.pop();
            assert(visited@ =~= path);
            Some(TreeRef::Inline(value, children))
        },
    }
}


/// The raw identifier of an optional typed one.
pub open spec fn raw_id<W: Wrapper>(r: Option<W>) -> Option<usize> {
    match r {
        Some(w) => Some(w.id_of().0),
        None => None,
    }
}

/// Whether `r` is what reading `t` back into `s` gave, where `before` holds the identifiers
/// in use before: a name stands for the first listed entry of that name, or for nothing
/// when none has it; a copy with one saved field per field of its value stands for a new
/// anonymous entry holding the copy with its fields set to what its saved fields were read
/// back as in turn (nothing where a field was saved as nothing); any other copy for nothing.
pub open spec fn restored_as<T: StorageElem2>(s: &Storage2<T>, before: Set<usize>, r: Option<usize>, t: TreeRef<T>) -> bool
    decreases t,
{
    match t {
        TreeRef::Named(n) => match r {
            Some(k) => first_named(s, n@, k),
            None => none_named(s, n@),
        },
        TreeRef::Inline(v, children) => if children@.len() != v.fields().len() {
            r is None
        } else {
            match r {
                Some(k) => {
                    &&& !before.contains(k)
                    &&& s.elements().contains_key(k)
                    &&& exists|ids: Seq<Option<T::IdWrapper>>|
                        {
                            &&& ids.len() == children@.len()
                            &&& s.elements()[k] == StorageInner::Inline(#[trigger] v.with_fields(ids))
                            &&& forall|i: int|
                                0 <= i < children@.len() ==> match #[trigger] children@[i] {
                                    Some(c) => restored_as(s, before, raw_id(ids[i]), c),
                                    None => ids[i] is None,
                                }
                        }
                },
                None => false,
            }
        },
    }
}

/// What was read back stays so while entries are only added, and with fewer identifiers
/// counted as in use before.
proof fn lemma_restored_stays<T: StorageElem2>(
    s1: &Storage2<T>,
    s2: &Storage2<T>,
    before1: Set<usize>,
    before2: Set<usize>,
    r: Option<usize>,
    t: TreeRef<T>,
)
    requires
        s1.wf(),
        restored_as(s1, before1, r, t),
        before2.subset_of(before1),
        s2.order() == s1.order(),
        forall|k: usize| #[trigger] s1.elements().contains_key(k) ==> s2.elements().contains_key(k) && s2.elements()[k] == s1.elements()[k],
    ensures
        restored_as(s2, before2, r, t),
    decreases t,
{
    s1.lemma_listed_are_named();
    match t {
        TreeRef::Named(n) => {
            assert forall|i: int| 0 <= i < s1.order().len() implies s2.elements()[#[trigger] s1.order()[i]] == s1.elements()[s1.order()[i]] by {
                assert(s1.order().contains(s1.order()[i]));
            }
            match r {
                Some(k) => {
                    let i = choose|i: int|
                        0 <= i < s1.order().len() && #[trigger] s1.order()[i] == k && named_as(s1.elements()[s1.order()[i]], n@)
                            && forall|j: int| 0 <= j < i ==> !named_as(s1.elements()[#[trigger] s1.order()[j]], n@);
                    assert(s2.order()[i] == k);
                },
                None => {},
            }
        },
        TreeRef::Inline(v, children) => {
            if children@.len() == v.fields().len() {
                if let Some(k) = r {
                    let ids = choose|ids: Seq<Option<T::IdWrapper>>|
                        {
                            &&& ids.len() == children@.len()
                            &&& s1.elements()[k] == StorageInner::Inline(#[trigger] v.with_fields(ids))
                            &&& forall|i: int|
                                0 <= i < children@.len() ==> match #[trigger] children@[i] {
                                    Some(c) => restored_as(s1, before1, raw_id(ids[i]), c),
                                    None => ids[i] is None,
                                }
                        };
                    assert forall|i: int| 0 <= i < children@.len() implies match #[trigger] children@[i] {
                        Some(c) => restored_as(s2, before2, raw_id(ids[i]), c),
                        None => ids[i] is None,
                    } by {
                        match children@[i] {
                            Some(c) => {
                                lemma_restored_stays(s1, s2, before1, before2, raw_id(ids[i]), c);
                            },
                            None => {},
                        }
                    }
                    assert(s2.elements()[k] == StorageInner::Inline(v.with_fields(ids)));
                }
            }
        },
    }
}

/// Reads `t` back into `s`: a name is looked up among the listed entries, a copy becomes a
/// new anonymous entry, its saved fields read back first, in order. Leaves the listed
/// entries and every entry there was as they were. Should the storage run out of
/// identifiers on the way, the result is nothing.
pub fn from_tree<T: StorageElem2>(s: &mut Storage2<T>, t: TreeRef<T>) -> (result: Option<T::IdWrapper>)
    requires
        old(s).wf(),
    ensures
        final(s).wf(),
        final(s).order() == old(s).order(),
        forall|k: usize| #[trigger] old(s).elements().contains_key(k) ==> final(s).elements().contains_key(k)
            && final(s).elements()[k] == old(s).elements()[k],
        final(s).can_add() ==> restored_as(final(s), old(s).elements().dom(), raw_id(result), t),
    decreases t,
{
    let ghost t0 = t;
    let ghost before = s.elements().dom();
    match t {
        TreeRef::Named(name) => s.find_id(name.as_str()),
        TreeRef::Inline(v, children) => {
            let ghost ch = children@;
            if children.len() != v.field_ids().len() {
                return None;
            }
            let mut rest = children;
            let mut ids: Vec<Option<T::IdWrapper>> = Vec::new();
            while rest.len() > 0
                invariant
                    s.wf(),
                    s.order() == old(s).order(),
                    before == old(s).elements().dom(),
                    t0 == TreeRef::Inline(v, children),
                    t == t0,
                    ch == children@,
                    forall|k: usize| #[trigger] old(s).elements().contains_key(k) ==> s.elements().contains_key(k)
                        && s.elements()[k] == old(s).elements()[k],
                    ids@.len() + rest@.len() == ch.len(),
                    rest@ == ch.subrange(ids@.len() as int, ch.len() as int),
                    forall|i: int|
                        0 <= i < ids@.len() ==> match #[trigger] ch[i] {
                            Some(c) => restored_as(s, before, raw_id(ids@[i]), c),
                            None => ids@[i] is None,
                        },
                decreases rest@.len(),
            {
                let ghost j = ids@.len() as int;
                let item = rest.remove(0);
                assert(item == ch[j]);
                let ghost s_prev = *s;
                let id = match item {
                    Some(c) => {
                        assert(c == ch[j]->0);
                        assert(decreases_to!(t0 => t0->Inline_1));
                        assert(decreases_to!(children => children@));
                        assert(decreases_to!(children@ => children@[j]));
                        assert(decreases_to!(children@[j] => children@[j]->0));
                        assert(decreases_to!(t0 => c));
                        from_tree(s, c)
                    },
                    None => None,
                };
                if !s.has_room() {
                    return None;
                }
                proof {
                    assert forall|i: int|
                        0 <= i < ids@.len() implies match #[trigger] ch[i] {
                            Some(c) => restored_as(s, before, raw_id(ids@[i]), c),
                            None => ids@[i] is None,
                        } by {
                        match ch[i] {
                            Some(c) => lemma_restored_stays(&s_prev, s, before, before, raw_id(ids@[i]), c),
                            None => {},
                        }
                    }
                    match ch[j] {
                        Some(c) => {
                            assert(before.subset_of(s_prev.elements().dom()));
                            lemma_restored_stays(s, s, s_prev.elements().dom(), before, raw_id(id), c);
                        },
                        None => {},
                    }
                }
                ids.push(id);
                assert(rest@ =~= ch.subrange(ids@.len() as int, ch.len() as int));
            }
            if !s.has_room() {
                return None;
            }
            let ghost s_prev = *s;
            let value = v.replace_fields(&ids);
            let w = s.insert_inline(value);
            proof {
                let k = w.id_of().0;
                assert forall|i: int|
                    0 <= i < ids@.len() implies match #[trigger] ch[i] {
                        Some(c) => restored_as(s, before, raw_id(ids@[i]), c),
                        None => ids@[i] is None,
                    } by {
                    match ch[i] {
                        Some(c) => lemma_restored_stays(&s_prev, s, before, before, raw_id(ids@[i]), c),
                        None => {},
                    }
                }
                assert(!before.contains(k));
                assert(s.elements()[k] == StorageInner::Inline(v.with_fields(ids@)));
            }
            Some(w)
        },
    }
}

/// A listed entry saved by name reads back as itself, into its storage or one that only has
/// more entries, when no listed entry before it has its name.
pub proof fn lemma_named_roundtrip<T: StorageElem2>(
    s: &Storage2<T>,
    s2: &Storage2<T>,
    id: usize,
    i: int,
    path: Seq<usize>,
    fuel: nat,
    t: TreeRef<T>,
    before: Set<usize>,
    r: Option<usize>,
)
    requires
        s.wf(),
        s2.wf(),
        0 <= i < s.order().len(),
        s.order()[i] == id,
        forall|j: int| 0 <= j < i ==> !named_as(s.elements()[#[trigger] s.order()[j]], saved_name(s.elements(), id)),
        saved_as(s.elements(), id, path, fuel, Some(t)),
        s2.order() == s.order(),
        forall|k: usize| #[trigger] s.elements().contains_key(k) ==> s2.elements().contains_key(k) && s2.elements()[k] == s.elements()[k],
        restored_as(s2, before, r, t),
    ensures
        r == Some(id),
{
    s.lemma_listed_are_named();
    assert(s.order().contains(id));
    let name = saved_name(s.elements(), id);
    assert forall|j: int| 0 <= j < s.order().len() implies s2.elements()[#[trigger] s.order()[j]] == s.elements()[s.order()[j]] by {
        assert(s.order().contains(s.order()[j]));
    }
    assert(named_as(s2.elements()[s2.order()[i]], name));
    assert(first_named(s2, name, id));
    match r {
        Some(k) => {
            lemma_first_named_unique(s2, name, k, id);
        },
        None => {
            assert(!named_as(s2.elements()[s2.order()[i]], name));
        },
    }
}

} // verus!
