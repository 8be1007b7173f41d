use crate::ids::Wrapper;
use crate::storage2::{inner_value, Storage2, StorageElem2, StorageInner};
use vstd::prelude::*;

verus! {

/// An element whose problems can be counted: some of its own, read from `ErrorInput`, plus
/// those of some of its fields, counted in turn where the fields are anonymous.
pub trait ErrorCounting: StorageElem2 {
    /// What the element's own problems are read from.
    type ErrorInput;

    /// The problems the element has by itself, when stored under `self_id`.
    spec fn own_errors(&self, input: &Self::ErrorInput, self_id: usize) -> nat;

    /// The fields whose problems count towards the element's, in order.
    spec fn checked_fields(&self) -> Seq<Self::IdWrapper>;

    /// The element's own problems and the fields whose problems count towards its own.
    fn errors_parts(&self, input: &Self::ErrorInput, self_id: Self::IdWrapper) -> (result: (usize, Vec<Self::IdWrapper>))
        ensures
            result.0 == self.own_errors(input, self_id.id_of().0),
            result.1@ == self.checked_fields(),
    ;
}

/// The raw identifiers of the fields of `t` whose problems count.
pub open spec fn checked_ids<T: ErrorCounting>(t: T) -> Seq<usize> {
    t.checked_fields().map_values(|w: T::IdWrapper| w.id_of().0)
}

/// The problems counted from entry `id` when the entries in `path` are being counted
/// already: one for a missing entry, none for a named entry unless `allow_named`, none for an
/// entry on the path, else its own problems and those of its checked fields, which count
/// only where anonymous. `fuel` bounds the depth.
pub open spec fn errors_from<T: ErrorCounting>(
    m: Map<usize, StorageInner<T>>,
    input: T::ErrorInput,
    id: usize,
    path: Seq<usize>,
    allow_named: bool,
    fuel: nat,
) -> nat
    decreases fuel, 0nat,
{
    if !m.contains_key(id) {
        1
    } else if !allow_named && !(m[id] is Inline) {
        0
    } else if path.contains(id) {
        0
    } else if fuel == 0 {
        0
    } else {
        let t = inner_value(m[id]);
        t.own_errors(&input, id) + errors_of_list(m, input, checked_ids(t), path.push(id), (fuel - 1) as nat)
    }
}

/// The problems counted from each of `ids` in turn, as anonymous fields.
pub open spec fn errors_of_list<T: ErrorCounting>(
    m: Map<usize, StorageInner<T>>,
    input: T::ErrorInput,
    ids: Seq<usize>,
    path: Seq<usize>,
    fuel: nat,
) -> nat
    decreases fuel, ids.len(),
{
    if ids.len() == 0 {
        0
    } else {
        errors_of_list(m, input, ids.drop_last(), path, fuel) + errors_from(m, input, ids.last(), path, false, fuel)
    }
}

/// The problems counted from entry `id` of `m`, starting afresh: as an anonymous field, or,
/// with `allow_named`, as an entry of its own.
pub open spec fn entry_errors<T: ErrorCounting>(m: Map<usize, StorageInner<T>>, input: T::ErrorInput, id: usize, allow_named: bool) -> nat {
    errors_from(m, input, id, Seq::empty(), allow_named, m.dom().len())
}

/// The problems counted from each of `ids` as an entry of its own.
pub open spec fn named_errors<T: ErrorCounting>(m: Map<usize, StorageInner<T>>, input: T::ErrorInput, ids: Seq<usize>) -> nat
    decreases ids.len(),
{
    if ids.len() == 0 {
        0
    } else {
        named_errors(m, input, ids.drop_last()) + entry_errors(m, input, ids.last(), true)
    }
}

/// The problems counted from each of `ids` as an anonymous field, starting afresh.
pub open spec fn field_errors<T: ErrorCounting>(m: Map<usize, StorageInner<T>>, input: T::ErrorInput, ids: Seq<usize>) -> nat {
    errors_of_list(m, input, ids, Seq::empty(), m.dom().len())
}

/// A path of distinct entries is no longer than the number of entries, and shorter when an
/// entry is off it.
proof fn lemma_path_bound<K>(dom: Set<K>, path: Seq<K>, id: K)
    requires
        dom.finite(),
        path.no_duplicates(),
        forall|i: int| 0 <= i < path.len() ==> dom.contains(#[trigger] path[i]),
    ensures
        path.len() <= dom.len(),
        dom.contains(id) && !path.contains(id) ==> path.len() < dom.len(),
{
    path.unique_seq_to_set();
    assert(path.to_set().subset_of(dom));
    vstd::set_lib::lemma_len_subset(path.to_set(), dom);
    if dom.contains(id) && !path.contains(id) {
        assert(!path.to_set().contains(id));
        vstd::set_lib::lemma_len_subset(path.to_set().insert(id), dom);
    }
}

/// Counting a prefix of a list counts no more than the whole list.
pub proof fn lemma_errors_of_prefix<T: ErrorCounting>(
    m: Map<usize, StorageInner<T>>,
    input: T::ErrorInput,
    ids: Seq<usize>,
    path: Seq<usize>,
    fuel: nat,
    j: int,
)
    requires
        0 <= j <= ids.len(),
    ensures
        errors_of_list(m, input, ids.take(j), path, fuel) <= errors_of_list(m, input, ids, path, fuel),
    decreases ids.len(),
{
    if j == ids.len() {
        assert(ids.take(j) =~= ids);
    } else {
        lemma_errors_of_prefix(m, input, ids.drop_last(), path, fuel, j);
        assert(ids.drop_last().take(j) =~= ids.take(j));
    }
}

/// Counting one more element of a list adds its problems.
proof fn lemma_errors_of_step<T: ErrorCounting>(
    m: Map<usize, StorageInner<T>>,
    input: T::ErrorInput,
    ids: Seq<usize>,
    path: Seq<usize>,
    fuel: nat,
    j: int,
)
    requires
        0 <= j < ids.len(),
    ensures
        errors_of_list(m, input, ids.take(j + 1), path, fuel) == errors_of_list(m, input, ids.take(j), path, fuel)
            + errors_from(m, input, ids[j], path, false, fuel),
{
    let p = ids.take(j + 1);
    assert(p.drop_last() =~= ids.take(j));
    assert(p.last() == ids[j]);
}

/// Adding up one more listed entry adds its problems, and a prefix adds up to no more than
/// the whole list.
proof fn lemma_named_errors_step<T: ErrorCounting>(m: Map<usize, StorageInner<T>>, input: T::ErrorInput, ids: Seq<usize>, j: int)
    requires
        0 <= j < ids.len(),
    ensures
        named_errors(m, input, ids.take(j + 1)) == named_errors(m, input, ids.take(j)) + entry_errors(m, input, ids[j], true),
        named_errors(m, input, ids.take(j + 1)) <= named_errors(m, input, ids),
    decreases ids.len(),
{
    let p = ids.take(j + 1);
    assert(p.drop_last() =~= ids.take(j));
    if j + 1 == ids.len() {
        assert(p =~= ids);
    } else {
        lemma_named_errors_step(m, input, ids.drop_last(), j);
        assert(ids.drop_last().take(j + 1) =~= p);
    }
}

/// Counting one more anonymous field adds its problems.
pub proof fn lemma_field_errors_push<T: ErrorCounting>(m: Map<usize, StorageInner<T>>, input: T::ErrorInput, ids: Seq<usize>, x: usize)
    ensures
        field_errors(m, input, ids.push(x)) == field_errors(m, input, ids) + entry_errors(m, input, x, false),
{
    assert(ids.push(x).drop_last() =~= ids);
}

/// Counting the first part of a list counts no more than the whole list.
pub proof fn lemma_field_errors_concat<T: ErrorCounting>(m: Map<usize, StorageInner<T>>, input: T::ErrorInput, a: Seq<usize>, b: Seq<usize>)
    ensures
        field_errors(m, input, a) <= field_errors(m, input, a + b),
{
    lemma_errors_of_prefix(m, input, a + b, Seq::empty(), m.dom().len(), a.len() as int);
    assert((a + b).take(a.len() as int) =~= a);
}

impl<T: ErrorCounting> Storage2<T> {
    /// The problems counted from `id` while the entries in `visited` are being counted
    /// already; `visited` is left as it was.
    fn errors_count_inner(&self, id: T::IdWrapper, visited: &mut Vec<usize>, input: &T::ErrorInput, allow_not_inline: bool) -> (result: usize)
        requires
            self.wf(),
            old(visited)@.no_duplicates(),
            forall|i: int| 0 <= i < old(visited)@.len() ==> self.elements().contains_key(#[trigger] old(visited)@[i]),
            old(visited)@.len() <= self.elements().dom().len(),
            errors_from(
                self.elements(),
                *input,
                id.id_of().0,
                old(visited)@,
                allow_not_inline,
                (self.elements().dom().len() - old(visited)@.len()) as nat,
            ) <= usize::MAX,
        ensures
            final(visited)@ == old(visited)@,
            result == errors_from(
                self.elements(),
                *input,
                id.id_of().0,
                old(visited)@,
                allow_not_inline,
                (self.elements().dom().len() - old(visited)@.len()) as nat,
            ),
        decreases self.elements().dom().len() - old(visited)@.len(),
    {
        let ghost m = self.elements();
        let ghost path = visited@;
        let ghost fuel = (m.dom().len() - path.len()) as nat;
        let k = id.un_wrap().0;
        proof {
            self.lemma_finite();
            lemma_path_bound(m.dom(), path, k);
        }
        let name = self.get_name(id);
        if name.is_none() {
            return 1;
        }
        if !allow_not_inline && name.unwrap().is_some() {
            return 0;
        }
        let mut i: usize = 0;
        while i < visited.len()
            invariant
                visited@ == path,
                old(visited)@ == path,
                id.id_of().0 == k,
                m == self.elements(),
                m.contains_key(k),
                allow_not_inline || m[k] is Inline,
                i <= path.len(),
                forall|a: int| 0 <= a < i ==> path[a] != k,
            decreases path.len() - i,
        {
            if visited[i] == k {
                assert(path[i as int] == k);
                return 0;
            }
            i = i + 1;
        }
        assert(!path.contains(k));
        let elem = self.get_original(id).unwrap();
        let ghost t = inner_value(m[k]);
        let (own, checked) = elem.errors_parts(input, id);
        let ghost ids = checked_ids(t);
        let ghost path1 = path.push(k);
        visited.push(k);
        proof {
            assert(visited@ == path1);
            assert(path1.no_duplicates()) by {
                assert forall|a: int, b: int| 0 <= a < path1.len() && 0 <= b < path1.len() && a != b implies path1[a] != path1[b] by {
                    if a < path.len() && b < path.len() {
                        assert(path[a] != path[b]);
                    } else if a < path.len() {
                        assert(path.contains(path[a]));
                    } else {
                        assert(path.contains(path[b]));
                    }
                }
            }
            assert(errors_from(m, *input, k, path, allow_not_inline, fuel) == own + errors_of_list(m, *input, ids, path1, (fuel - 1) as nat));
        }
        let mut result = own;
        let mut j: usize = 0;
        while j < checked.len()
            invariant
                self.wf(),
                m == self.elements(),
                m.dom().finite(),
                old(visited)@ == path,
                visited@ == path1,
                path1.no_duplicates(),
                forall|a: int| 0 <= a < path1.len() ==> m.contains_key(#[trigger] path1[a]),
                path1.len() == path.len() + 1,
                path1.len() <= m.dom().len(),
                fuel == m.dom().len() - path.len(),
                checked@ == t.checked_fields(),
                ids == checked_ids(t),
                j <= checked@.len(),
                own + errors_of_list(m, *input, ids, path1, (fuel - 1) as nat) <= usize::MAX,
                result == own + errors_of_list(m, *input, ids.take(j as int), path1, (fuel - 1) as nat),
            decreases checked@.len() - j,
        {
            let c = checked[j];
            proof {
                assert(ids[j as int] == c.id_of().0);
                lemma_errors_of_step(m, *input, ids, path1, (fuel - 1) as nat, j as int);
                lemma_errors_of_prefix(m, *input, ids, path1, (fuel - 1) as nat, j + 1);
            }
            let r = self.errors_count_inner(c, visited, input, false);
            result = result + r;
            j = j + 1;
        }
        assert(ids.take(j as int) =~= ids);
        visited.pop();
        assert(visited@ =~= path);
        result
    }

    /// The problems counted from `id` as an anonymous field: its own and those of the
    /// anonymous fields it checks, each entry at most once along a chain of fields; none
    /// when `id` names a named entry, one when nothing is stored under it.
    pub fn errors_inline(&self, id: T::IdWrapper, input: &T::ErrorInput) -> (result: usize)
        requires
            self.wf(),
            entry_errors(self.elements(), *input, id.id_of().0, false) <= usize::MAX,
        ensures
            result == entry_errors(self.elements(), *input, id.id_of().0, false),
    {
        let mut visited: Vec<usize> = Vec::new();
        self.errors_count_inner(id, &mut visited, input, false)
    }

    /// The problems counted from `id` as an entry of its own, named or not.
    pub fn errors_count_id(&self, id: T::IdWrapper, input: &T::ErrorInput) -> (result: usize)
        requires
            self.wf(),
            entry_errors(self.elements(), *input, id.id_of().0, true) <= usize::MAX,
        ensures
            result == entry_errors(self.elements(), *input, id.id_of().0, true),
    {
        let mut visited: Vec<usize> = Vec::new();
        self.errors_count_inner(id, &mut visited, input, true)
    }

    /// The problems counted from each listed entry as an entry of its own, added up.
    pub fn errors_count_all(&self, input: &T::ErrorInput) -> (result: usize)
        requires
            self.wf(),
            named_errors(self.elements(), *input, self.order()) <= usize::MAX,
        ensures
            result == named_errors(self.elements(), *input, self.order()),
    {
        let listed = self.visible_elements();
        let ghost m = self.elements();
        let ghost order = self.order();
        let mut result: usize = 0;
        let mut i: usize = 0;
        while i < listed.len()
            invariant
                self.wf(),
                m == self.elements(),
                order == self.order(),
                listed@.len() == order.len(),
                forall|a: int| 0 <= a < listed@.len() ==> (#[trigger] listed@[a]).0.id_of().0 == order[a],
                i <= order.len(),
                named_errors(m, *input, order) <= usize::MAX,
                result == named_errors(m, *input, order.take(i as int)),
            decreases order.len() - i,
        {
            proof {
                lemma_named_errors_step(m, *input, order, i as int);
            }
            let r = self.errors_count_id(listed[i].0, input);
            result = result + r;
            i = i + 1;
        }
        assert(order.take(i as int) =~= order);
        result
    }
}

} // verus!
