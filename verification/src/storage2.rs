use crate::id_tools::mapped;
use crate::ids::Wrapper;
use crate::text::{decimal, push_char, push_decimal, same_text};
use crate::unique_id::{UniqueId, UniqueIds};
use std::collections::BTreeMap;
use vstd::prelude::*;

verus! {

broadcast use vstd::std_specs::btree::group_btree_axioms;

/// An element kept in a [`Storage2`]: one with a name, listed among the storage's elements,
/// or an anonymous one that lives inside another element as its field.
#[derive(Debug)]
pub enum StorageInner<T> {
    Named(T, String),
    Inline(T),
}

/// The value an entry holds.
pub open spec fn inner_value<T>(e: StorageInner<T>) -> T {
    match e {
        StorageInner::Named(t, _) => t,
        StorageInner::Inline(t) => t,
    }
}

/// Whether an entry is named `name`.
pub open spec fn named_as<T>(e: StorageInner<T>, name: Seq<char>) -> bool {
    match e {
        StorageInner::Named(_, n) => n@ == name,
        StorageInner::Inline(_) => false,
    }
}

impl<T> StorageInner<T> {
    /// The value held.
    pub fn as_ref(&self) -> (result: &T)
        ensures
            *result == inner_value(*self),
    {
        match self {
            StorageInner::Named(t, _) => t,
            StorageInner::Inline(t) => t,
        }
    }

    /// Whether the entry is named `name`.
    pub fn is_named_as(&self, name: &str) -> (result: bool)
        ensures
            result == named_as(*self, name@),
    {
        match self {
            StorageInner::Named(_, n) => same_text(n.as_str(), name),
            StorageInner::Inline(_) => false,
        }
    }

    /// Whether the entry is anonymous.
    pub fn is_inline(&self) -> (result: bool)
        ensures
            result == (*self is Inline),
    {
        match self {
            StorageInner::Named(_, _) => false,
            StorageInner::Inline(_) => true,
        }
    }

    /// The name of the entry, if it has one.
    pub fn name(&self) -> (result: Option<&str>)
        ensures
            match *self {
                StorageInner::Named(_, n) => result is Some && result.unwrap()@ == n@,
                StorageInner::Inline(_) => result is None,
            },
    {
        match self {
            StorageInner::Named(_, n) => Some(n.as_str()),
            StorageInner::Inline(_) => None,
        }
    }
}

/// An element that can be kept in a [`Storage2`].
pub trait StorageElem2: Sized + Default + Clone {
    /// The identifier type of such elements.
    type IdWrapper: Wrapper;

    /// The elements of the same storage this one holds as its fields, in order.
    spec fn fields(&self) -> Seq<Self::IdWrapper>;

    /// The elements of the same storage this one holds as its fields, in order.
    fn field_ids(&self) -> (result: Vec<Self::IdWrapper>)
        ensures
            result@ == self.fields(),
    ;

    /// This value with its fields, in order, set to `ids`: each one the element given, or
    /// none.
    spec fn with_fields(&self, ids: Seq<Option<Self::IdWrapper>>) -> Self;

    /// This value with its fields, in order, set to `ids`: each one the element given, or
    /// none.
    fn replace_fields(self, ids: &Vec<Option<Self::IdWrapper>>) -> (result: Self)
        requires
            ids@.len() == self.fields().len(),
        ensures
            result == self.with_fields(ids@),
    ;

    /// Whether this is the value a new element starts with.
    spec fn is_default(&self) -> bool;

    /// The value a new element starts with: the type's default.
    fn new_default() -> (result: Self)
        ensures
            result.is_default(),
    ;
}

/// The raw identifiers of the fields of the value in entry `e`.
pub open spec fn child_ids<T: StorageElem2>(e: StorageInner<T>) -> Seq<usize> {
    inner_value(e).fields().map_values(|w: T::IdWrapper| w.id_of().0)
}

/// Elements stored under identifiers handed out by a pool, with the named ones listed in
/// the order the user arranged them.
pub struct Storage2<T: StorageElem2> {
    ids: UniqueIds,
    storage: BTreeMap<usize, StorageInner<T>>,
    storage_order: Vec<usize>,
}

impl<T: StorageElem2> Storage2<T> {
    /// The entries, by raw identifier.
    pub closed spec fn elements(&self) -> Map<usize, StorageInner<T>> {
        self.storage@
    }

    /// The named entries, in the order they are listed.
    pub closed spec fn order(&self) -> Seq<usize> {
        self.storage_order@
    }

    /// The identifiers in use are exactly those of the entries; the list holds each named
    /// entry once and nothing else.
    pub closed spec fn wf(&self) -> bool {
        &&& self.ids.wf()
        &&& self.storage@.dom() == self.ids.allocated()
        &&& self.storage_order@.no_duplicates()
        &&& forall|k: usize| #[trigger] self.storage_order@.contains(k) <==> (self.storage@.contains_key(k)
            && self.storage@[k] is Named)
    }

    /// Whether another entry can be added: some identifier below `usize::MAX` is free.
    pub closed spec fn can_add(&self) -> bool {
        self.ids.can_allocate()
    }

    /// The smallest identifier no entry has.
    pub open spec fn next_id(&self) -> usize {
        choose|i: usize| !self.elements().contains_key(i) && forall|j: usize| j < i ==> self.elements().contains_key(j)
    }

    /// An empty storage.
    pub fn new() -> (result: Self)
        ensures
            result.wf(),
            result.elements() == Map::<usize, StorageInner<T>>::empty(),
            result.order() == Seq::<usize>::empty(),
            result.can_add(),
    {
        let result = Storage2 { ids: UniqueIds::new(), storage: BTreeMap::new(), storage_order: Vec::new() };
        assert(result.storage@.dom() =~= result.ids.allocated());
        result
    }

    /// The number of named entries.
    pub fn len(&self) -> (result: usize)
        ensures
            result == self.order().len(),
    {
        self.storage_order.len()
    }

    /// The value stored under `id`, if any.
    pub fn get_original(&self, id: T::IdWrapper) -> (result: Option<&T>)
        ensures
            match result {
                Some(t) => self.elements().contains_key(id.id_of().0) && *t == inner_value(self.elements()[id.id_of().0]),
                None => !self.elements().contains_key(id.id_of().0),
            },
    {
        match self.storage.get(&id.un_wrap().0) {
            Some(e) => Some(e.as_ref()),
            None => None,
        }
    }

    /// Whether an entry is stored under `id` (outer option), and its name if it has one
    /// (inner option).
    pub fn get_name(&self, id: T::IdWrapper) -> (result: Option<Option<&str>>)
        ensures
            match result {
                Some(name) => self.elements().contains_key(id.id_of().0) && match self.elements()[id.id_of().0] {
                    StorageInner::Named(_, n) => name is Some && name.unwrap()@ == n@,
                    StorageInner::Inline(_) => name is None,
                },
                None => !self.elements().contains_key(id.id_of().0),
            },
    {
        match self.storage.get(&id.un_wrap().0) {
            Some(e) => Some(e.name()),
            None => None,
        }
    }
}

/// The name a new entry gets: `id` followed by its identifier.
pub open spec fn default_name(id: usize) -> Seq<char> {
    seq!['i', 'd'] + decimal(id as nat)
}

/// The entry with value `value` and the name and kind of `e`.
pub open spec fn with_value<T>(e: StorageInner<T>, value: T) -> StorageInner<T> {
    match e {
        StorageInner::Named(_, n) => StorageInner::Named(value, n),
        StorageInner::Inline(_) => StorageInner::Inline(value),
    }
}

impl<T: StorageElem2> Storage2<T> {
    /// The first listed entry named `name`.
    pub fn find_id(&self, name: &str) -> (result: Option<T::IdWrapper>)
        requires
            self.wf(),
        ensures
            match result {
                Some(w) => exists|i: int|
                    0 <= i < self.order().len() && #[trigger] self.order()[i] == w.id_of().0
                    && named_as(self.elements()[self.order()[i]], name@)
                    && forall|j: int| 0 <= j < i ==> !named_as(self.elements()[#[trigger] self.order()[j]], name@),
                None => forall|i: int| 0 <= i < self.order().len() ==> !named_as(self.elements()[#[trigger] self.order()[i]], name@),
            },
    {
        let mut i: usize = 0;
        while i < self.storage_order.len()
            invariant
                self.wf(),
                i <= self.order().len(),
                forall|j: int| 0 <= j < i ==> !named_as(self.elements()[#[trigger] self.order()[j]], name@),
            decreases self.order().len() - i,
        {
            let id = self.storage_order[i];
            let found = match self.storage.get(&id) {
                Some(e) => e.is_named_as(name),
                None => false,
            };
            proof {
                assert(self.order().contains(id));
            }
            if found {
                let w = T::IdWrapper::wrap(UniqueId(id));
                assert(self.order()[i as int] == w.id_of().0);
                return Some(w);
            }
            i = i + 1;
        }
        None
    }

    /// The listed entries with their names, in order.
    pub fn visible_elements(&self) -> (result: Vec<(T::IdWrapper, &str)>)
        requires
            self.wf(),
        ensures
            result@.len() == self.order().len(),
            forall|i: int| 0 <= i < result@.len() ==> (#[trigger] result@[i]).0.id_of().0 == self.order()[i]
                && named_as(self.elements()[self.order()[i]], result@[i].1@),
    {
        let mut result: Vec<(T::IdWrapper, &str)> = Vec::new();
        let mut i: usize = 0;
        while i < self.storage_order.len()
            invariant
                self.wf(),
                i <= self.order().len(),
                result@.len() == i,
                forall|j: int| 0 <= j < i ==> (#[trigger] result@[j]).0.id_of().0 == self.order()[j]
                    && named_as(self.elements()[self.order()[j]], result@[j].1@),
            decreases self.order().len() - i,
        {
            let id = self.storage_order[i];
            proof {
                assert(self.order().contains(id));
            }
            let e = self.storage.get(&id).unwrap();
            let name = e.name().unwrap();
            result.push((T::IdWrapper::wrap(UniqueId(id)), name));
            i = i + 1;
        }
        result
    }

    /// The identifiers of all entries, listed or not, in increasing order.
    pub fn all_ids(&self) -> (result: Vec<T::IdWrapper>)
        requires
            self.wf(),
        ensures
            forall|i: int, j: int| 0 <= i < j < result@.len() ==> (#[trigger] result@[i]).id_of().0 < (#[trigger] result@[j]).id_of().0,
            forall|i: int| 0 <= i < result@.len() ==> self.elements().contains_key((#[trigger] result@[i]).id_of().0),
            forall|k: usize| #[trigger] self.elements().contains_key(k) ==> exists|i: int| 0 <= i < result@.len() && (#[trigger] result@[i]).id_of().0 == k,
    {
        let max = self.ids.max();
        let mut result: Vec<T::IdWrapper> = Vec::new();
        let mut i: usize = 0;
        while i < max
            invariant
                self.wf(),
                max == self.ids.spec_max(),
                i <= max,
                forall|a: int, b: int| 0 <= a < b < result@.len() ==> (#[trigger] result@[a]).id_of().0 < (#[trigger] result@[b]).id_of().0,
                forall|a: int| 0 <= a < result@.len() ==> (#[trigger] result@[a]).id_of().0 < i,
                forall|a: int| 0 <= a < result@.len() ==> self.elements().contains_key((#[trigger] result@[a]).id_of().0),
                forall|k: usize| #[trigger] self.elements().contains_key(k) && k < i ==> exists|a: int| 0 <= a < result@.len() && (#[trigger] result@[a]).id_of().0 == k,
            decreases max - i,
        {
            let ghost before = result@;
            if self.storage.contains_key(&i) {
                let w = T::IdWrapper::wrap(UniqueId(i));
                result.push(w);
                assert(result@[result@.len() - 1].id_of().0 == i);
            }
            proof {
                assert forall|k: usize| #[trigger] self.elements().contains_key(k) && k < i + 1 implies exists|a: int| 0 <= a < result@.len() && (#[trigger] result@[a]).id_of().0 == k by {
                    if k < i {
                        let a = choose|a: int| 0 <= a < before.len() && (#[trigger] before[a]).id_of().0 == k;
                        assert(result@[a] == before[a]);
                    } else {
                        assert(result@[result@.len() - 1].id_of().0 == k);
                    }
                }
            }
            i = i + 1;
        }
        proof {
            self.ids.lemma_allocated_below_max();
            assert forall|k: usize| #[trigger] self.elements().contains_key(k) implies k < max by {
                assert(self.ids.allocated().contains(k));
            }
        }
        result
    }

    /// Replaces the value stored under `id`, keeping its name; does nothing when there is no
    /// such entry.
    pub fn set(&mut self, id: T::IdWrapper, value: T)
        requires
            old(self).wf(),
        ensures
            final(self).wf(),
            final(self).order() == old(self).order(),
            final(self).elements() == if old(self).elements().contains_key(id.id_of().0) {
                old(self).elements().insert(id.id_of().0, with_value(old(self).elements()[id.id_of().0], value))
            } else {
                old(self).elements()
            },
    {
        let k = id.un_wrap().0;
        if let Some(e) = self.storage.remove(&k) {
            let replaced = match e {
                StorageInner::Named(_, n) => StorageInner::Named(value, n),
                StorageInner::Inline(_) => StorageInner::Inline(value),
            };
            self.storage.insert(k, replaced);
            proof {
                assert(self.storage@ =~= old(self).storage@.insert(k, with_value(old(self).storage@[k], value)));
                assert(self.storage@.dom() =~= old(self).storage@.dom());
                assert forall|j: usize| #[trigger] self.storage_order@.contains(j) <==> (self.storage@.contains_key(j)
                    && self.storage@[j] is Named) by {
                    if j == k {
                        assert(old(self).storage@.contains_key(j));
                    }
                }
            }
        } else {
            assert(self.storage@ =~= old(self).storage@);
        }
    }

    /// Copies the value stored under `from` into the entry `id`, keeping the name of `id`;
    /// does nothing when there is no entry `from`.
    pub fn set_id(&mut self, id: T::IdWrapper, from: T::IdWrapper)
        requires
            old(self).wf(),
            old(self).elements().contains_key(from.id_of().0) ==> old(self).elements().contains_key(id.id_of().0),
        ensures
            final(self).wf(),
            final(self).order() == old(self).order(),
            !old(self).elements().contains_key(from.id_of().0) ==> final(self).elements() == old(self).elements(),
            old(self).elements().contains_key(from.id_of().0) ==> exists|v: T|
                cloned(inner_value(old(self).elements()[from.id_of().0]), v)
                && final(self).elements() == old(self).elements().insert(id.id_of().0, with_value(old(self).elements()[id.id_of().0], v)),
    {
        let copy = match self.storage.get(&from.un_wrap().0) {
            Some(e) => Some(e.as_ref().clone()),
            None => None,
        };
        match copy {
            Some(t) => {
                let ghost v = t;
                self.set(id, t);
                assert(cloned(inner_value(old(self).elements()[from.id_of().0]), v));
            },
            None => {},
        }
    }

    /// Adds a listed entry holding the default value, named `id` and its identifier, under
    /// the smallest free identifier.
    pub fn push_default(&mut self)
        requires
            old(self).wf(),
            old(self).can_add(),
        ensures
            final(self).wf(),
            !old(self).elements().contains_key(old(self).next_id()),
            final(self).elements().dom() == old(self).elements().dom().insert(old(self).next_id()),
            forall|k: usize| #[trigger] old(self).elements().contains_key(k) ==> final(self).elements()[k] == old(self).elements()[k],
            named_as(final(self).elements()[old(self).next_id()], default_name(old(self).next_id())),
            inner_value(final(self).elements()[old(self).next_id()]).is_default(),
            final(self).order() == old(self).order().push(old(self).next_id()),
    {
        let id = self.ids.get_unique();
        proof {
            let n = old(self).next_id();
            assert(!old(self).elements().contains_key(id.0) && forall|j: usize| j < id.0 ==> old(self).elements().contains_key(j));
            if n < id.0 {
                assert(old(self).elements().contains_key(n));
            }
            if id.0 < n {
                assert(old(self).elements().contains_key(id.0));
            }
            assert(n == id.0);
        }
        self.storage_order.push(id.0);
        let mut name = String::new();
        push_char(&mut name, 'i');
        push_char(&mut name, 'd');
        push_decimal(&mut name, id.0);
        assert(name@ =~= default_name(id.0));
        self.storage.insert(id.0, StorageInner::Named(T::new_default(), name));
        proof {
            assert(self.storage@.dom() =~= self.ids.allocated());
            assert forall|k: usize| #[trigger] self.storage_order@.contains(k) <==> (self.storage@.contains_key(k)
                && self.storage@[k] is Named) by {
                if k != id.0 && self.storage_order@.contains(k) {
                    let i = choose|i: int| 0 <= i < self.storage_order@.len() && self.storage_order@[i] == k;
                    assert(old(self).storage_order@[i] == k);
                }
                if k != id.0 && old(self).storage_order@.contains(k) {
                    let i = choose|i: int| 0 <= i < old(self).storage_order@.len() && old(self).storage_order@[i] == k;
                    assert(self.storage_order@[i] == k);
                }
                if k == id.0 {
                    assert(self.storage_order@[self.storage_order@.len() - 1] == k);
                }
            }
            assert(!old(self).storage_order@.contains(id.0));
        }
    }

    /// Moves the listed entry at `pos` one place up.
    pub fn move_up(&mut self, pos: usize)
        requires
            old(self).wf(),
            0 < pos < old(self).order().len(),
        ensures
            final(self).wf(),
            final(self).elements() == old(self).elements(),
            final(self).order() == old(self).order().update(pos as int, old(self).order()[pos - 1]).update(
                pos - 1,
                old(self).order()[pos as int],
            ),
    {
        self.swap_order(pos - 1, pos);
    }

    /// Moves the listed entry at `pos` one place down.
    pub fn move_down(&mut self, pos: usize)
        requires
            old(self).wf(),
            pos + 1 < old(self).order().len(),
        ensures
            final(self).wf(),
            final(self).elements() == old(self).elements(),
            final(self).order() == old(self).order().update(pos as int, old(self).order()[pos + 1]).update(
                pos + 1,
                old(self).order()[pos as int],
            ),
    {
        assert(self.storage_order@.len() == self.storage_order.len());
        self.swap_order(pos, pos + 1);
        assert(self.order() =~= old(self).order().update(pos as int, old(self).order()[pos + 1]).update(
            pos + 1,
            old(self).order()[pos as int],
        ));
    }

    /// Exchanges the listed entries at `a` and `b`, with `a < b`.
    fn swap_order(&mut self, a: usize, b: usize)
        requires
            old(self).wf(),
            a < b < old(self).order().len(),
        ensures
            final(self).wf(),
            final(self).elements() == old(self).elements(),
            final(self).order() == old(self).order().update(b as int, old(self).order()[a as int]).update(
                a as int,
                old(self).order()[b as int],
            ),
    {
        let x = self.storage_order[a];
        let y = self.storage_order[b];
        self.storage_order.set(a, y);
        self.storage_order.set(b, x);
        proof {
            let o = old(self).storage_order@;
            let n = self.storage_order@;
            assert(n =~= o.update(b as int, o[a as int]).update(a as int, o[b as int]));
            assert forall|k: usize| #[trigger] n.contains(k) <==> o.contains(k) by {
                if n.contains(k) {
                    let i = choose|i: int| 0 <= i < n.len() && n[i] == k;
                    if i == a {
                        assert(o[b as int] == k);
                    } else if i == b {
                        assert(o[a as int] == k);
                    } else {
                        assert(o[i] == k);
                    }
                }
                if o.contains(k) {
                    let i = choose|i: int| 0 <= i < o.len() && o[i] == k;
                    if i == a {
                        assert(n[b as int] == k);
                    } else if i == b {
                        assert(n[a as int] == k);
                    } else {
                        assert(n[i] == k);
                    }
                }
            }
            assert(n.no_duplicates()) by {
                assert forall|i: int, j: int| 0 <= i < n.len() && 0 <= j < n.len() && i != j implies n[i] != n[j] by {
                    let oi = if i == a { b as int } else if i == b { a as int } else { i };
                    let oj = if j == a { b as int } else if j == b { a as int } else { j };
                    assert(n[i] == o[oi] && n[j] == o[oj]);
                }
            }
        }
    }

    /// Forgets an identifier that no longer names an entry; says whether it did.
    pub fn forget_missing(&self, id: &mut Option<T::IdWrapper>) -> (changed: bool)
        ensures
            changed == (*old(id) is Some && !self.elements().contains_key(old(id).unwrap().id_of().0)),
            *final(id) == if changed { None } else { *old(id) },
    {
        match *id {
            Some(w) => {
                if self.storage.contains_key(&w.un_wrap().0) {
                    false
                } else {
                    *id = None;
                    true
                }
            },
            None => false,
        }
    }
}

/// Whether `p` is a chain of anonymous entries of `m`, each a field of the one before.
pub open spec fn inline_path<T: StorageElem2>(m: Map<usize, StorageInner<T>>, p: Seq<usize>) -> bool {
    &&& p.len() > 0
    &&& forall|i: int| 0 <= i < p.len() ==> m.contains_key(#[trigger] p[i]) && m[p[i]] is Inline
    &&& forall|i: int| 0 <= i < p.len() - 1 ==> child_ids(m[#[trigger] p[i]]).contains(p[i + 1])
}

/// The anonymous entries of `m` reached from `roots` by following fields through anonymous
/// entries only: what removing those roots as fields takes away.
pub open spec fn inline_reach<T: StorageElem2>(m: Map<usize, StorageInner<T>>, roots: Set<usize>) -> Set<usize> {
    Set::new(|k: usize| exists|p: Seq<usize>| #[trigger] inline_path(m, p) && roots.contains(p[0]) && p.last() == k)
}

/// `x` occurs in `p`, for the last time at some index.
proof fn lemma_last_occurrence(p: Seq<usize>, x: usize) -> (i: int)
    requires
        p.contains(x),
    ensures
        0 <= i < p.len(),
        p[i] == x,
        forall|j: int| i < j < p.len() ==> p[j] != x,
    decreases p.len(),
{
    if p.last() == x {
        (p.len() - 1) as int
    } else {
        let q = p.drop_last();
        let k = choose|k: int| 0 <= k < p.len() && p[k] == x;
        assert(q[k] == x);
        let i = lemma_last_occurrence(q, x);
        assert forall|j: int| i < j < p.len() implies p[j] != x by {
            if j < p.len() - 1 {
                assert(q[j] == p[j]);
            }
        }
        i
    }
}

/// What the removal of anonymous entries keeps true: the entries still to go are reached
/// from the work list through entries that have not gone yet, and every entry gone or on the
/// list is reached from the roots.
pub open spec fn removal_inv<T: StorageElem2>(
    m0: Map<usize, StorageInner<T>>,
    roots: Set<usize>,
    removed: Set<usize>,
    stack: Seq<usize>,
) -> bool {
    &&& removed.subset_of(inline_reach(m0, roots))
    &&& forall|k: usize| #[trigger] inline_reach(m0, roots).contains(k) && !removed.contains(k) ==> exists|p: Seq<usize>|
        #[trigger] inline_path(m0, p) && stack.contains(p[0]) && p.last() == k
            && forall|i: int| 0 <= i < p.len() ==> !removed.contains(#[trigger] p[i])
    &&& forall|x: usize| #[trigger] stack.contains(x) ==> roots.contains(x) || exists|r: usize|
        #[trigger] removed.contains(r) && child_ids(m0[r]).contains(x)
}

/// Taking an entry off the work list that is gone already or not anonymous keeps the
/// removal invariant.
proof fn lemma_removal_skip<T: StorageElem2>(
    m0: Map<usize, StorageInner<T>>,
    roots: Set<usize>,
    removed: Set<usize>,
    stack: Seq<usize>,
)
    requires
        stack.len() > 0,
        removal_inv(m0, roots, removed, stack),
        removed.contains(stack.last()) || !m0.contains_key(stack.last()) || !(m0[stack.last()] is Inline),
    ensures
        removal_inv(m0, roots, removed, stack.drop_last()),
{
    let x = stack.last();
    let rest = stack.drop_last();
    assert forall|k: usize| #[trigger] inline_reach(m0, roots).contains(k) && !removed.contains(k) implies exists|p: Seq<usize>|
        #[trigger] inline_path(m0, p) && rest.contains(p[0]) && p.last() == k
            && forall|i: int| 0 <= i < p.len() ==> !removed.contains(#[trigger] p[i]) by {
        let p = choose|p: Seq<usize>| #[trigger] inline_path(m0, p) && stack.contains(p[0]) && p.last() == k
            && forall|i: int| 0 <= i < p.len() ==> !removed.contains(#[trigger] p[i]);
        assert(m0.contains_key(p[0]) && m0[p[0]] is Inline);
        assert(!removed.contains(p[0]));
        let j = choose|j: int| 0 <= j < stack.len() && stack[j] == p[0];
        assert(j != stack.len() - 1);
        assert(rest[j] == p[0]);
    }
    assert forall|y: usize| #[trigger] rest.contains(y) implies roots.contains(y) || exists|r: usize|
        #[trigger] removed.contains(r) && child_ids(m0[r]).contains(y) by {
        let j = choose|j: int| 0 <= j < rest.len() && rest[j] == y;
        assert(stack[j] == y);
        assert(stack.contains(y));
    }
}

/// An entry on the work list that is anonymous is reached from the roots.
proof fn lemma_listed_is_reached<T: StorageElem2>(
    m0: Map<usize, StorageInner<T>>,
    roots: Set<usize>,
    removed: Set<usize>,
    stack: Seq<usize>,
    x: usize,
)
    requires
        removal_inv(m0, roots, removed, stack),
        stack.contains(x),
        m0.contains_key(x),
        m0[x] is Inline,
    ensures
        inline_reach(m0, roots).contains(x),
{
    if roots.contains(x) {
        let p = seq![x];
        assert(inline_path(m0, p));
    } else {
        let r = choose|r: usize| #[trigger] removed.contains(r) && child_ids(m0[r]).contains(x);
        assert(inline_reach(m0, roots).contains(r));
        let pr = choose|p: Seq<usize>| #[trigger] inline_path(m0, p) && roots.contains(p[0]) && p.last() == r;
        let p = pr.push(x);
        assert forall|i: int| 0 <= i < p.len() implies m0.contains_key(#[trigger] p[i]) && m0[p[i]] is Inline by {
            if i < pr.len() {
                assert(p[i] == pr[i]);
            }
        }
        assert forall|i: int| 0 <= i < p.len() - 1 implies child_ids(m0[#[trigger] p[i]]).contains(p[i + 1]) by {
            if i < pr.len() - 1 {
                assert(p[i] == pr[i] && p[i + 1] == pr[i + 1]);
            } else {
                assert(p[i] == r);
            }
        }
        assert(inline_path(m0, p));
        assert(p[0] == pr[0]);
    }
}

/// A chain of anonymous entries stays one when its start is cut off.
proof fn lemma_path_suffix<T: StorageElem2>(m0: Map<usize, StorageInner<T>>, p: Seq<usize>, i: int)
    requires
        inline_path(m0, p),
        0 <= i < p.len(),
    ensures
        inline_path(m0, p.subrange(i, p.len() as int)),
{
    let q = p.subrange(i, p.len() as int);
    assert forall|j: int| 0 <= j < q.len() implies m0.contains_key(#[trigger] q[j]) && m0[q[j]] is Inline by {
        assert(q[j] == p[i + j]);
    }
    assert forall|j: int| 0 <= j < q.len() - 1 implies child_ids(m0[#[trigger] q[j]]).contains(q[j + 1]) by {
        assert(q[j] == p[i + j]);
        assert(q[j + 1] == p[i + j + 1]);
    }
}

/// One entry `k` still to go after removing `x`, the end of the work list, is reached from
/// the new list through entries that have not gone.
#[verifier::spinoff_prover]
#[verifier::rlimit(40)]
proof fn lemma_pending_one<T: StorageElem2>(
    m0: Map<usize, StorageInner<T>>,
    removed: Set<usize>,
    stack: Seq<usize>,
    k: usize,
    p: Seq<usize>,
)
    requires
        stack.len() > 0,
        inline_path(m0, p),
        stack.contains(p[0]),
        p.last() == k,
        k != stack.last(),
        forall|i: int| 0 <= i < p.len() ==> !removed.contains(#[trigger] p[i]),
    ensures
        exists|q: Seq<usize>|
            #[trigger] inline_path(m0, q) && (stack.drop_last() + child_ids(m0[stack.last()])).contains(q[0]) && q.last() == k
                && forall|i: int| 0 <= i < q.len() ==> !removed.insert(stack.last()).contains(#[trigger] q[i]),
{
    let x = stack.last();
    let kids = child_ids(m0[x]);
    let rest = stack.drop_last();
    let removed2 = removed.insert(x);
    let stack2 = rest + kids;
    if p.contains(x) {
        let i = lemma_last_occurrence(p, x);
        assert(i < p.len() - 1) by {
            if i == p.len() - 1 {
                assert(p.last() == x);
            }
        }
        let q = p.subrange(i + 1, p.len() as int);
        lemma_path_suffix(m0, p, i + 1);
        assert(child_ids(m0[p[i]]).contains(p[i + 1]));
        assert(q[0] == p[i + 1]);
        let c = choose|c: int| 0 <= c < kids.len() && kids[c] == q[0];
        assert(stack2[rest.len() + c] == q[0]);
        assert forall|j: int| 0 <= j < q.len() implies !removed2.contains(#[trigger] q[j]) by {
            assert(q[j] == p[i + 1 + j]);
            assert(!removed.contains(p[i + 1 + j]));
        }
        assert(q.last() == k);
        assert(inline_path(m0, q) && stack2.contains(q[0]));
    } else {
        assert(p[0] != x) by {
            assert(p.contains(p[0]));
        }
        let j = choose|j: int| 0 <= j < stack.len() && stack[j] == p[0];
        assert(j != stack.len() - 1);
        assert(stack2[j] == p[0]);
        assert forall|i: int| 0 <= i < p.len() implies !removed2.contains(#[trigger] p[i]) by {
            if p[i] == x {
                assert(p.contains(x));
            }
        }
        assert(inline_path(m0, p) && stack2.contains(p[0]));
    }
}

/// After removing the anonymous entry at the end of the work list and putting its fields on
/// the list, whatever is still to go is reached from the new list.
proof fn lemma_removal_take_pending<T: StorageElem2>(
    m0: Map<usize, StorageInner<T>>,
    roots: Set<usize>,
    removed: Set<usize>,
    stack: Seq<usize>,
)
    requires
        stack.len() > 0,
        removal_inv(m0, roots, removed, stack),
    ensures
        forall|k: usize| #[trigger] inline_reach(m0, roots).contains(k) && !removed.insert(stack.last()).contains(k) ==> exists|p: Seq<usize>|
            #[trigger] inline_path(m0, p) && (stack.drop_last() + child_ids(m0[stack.last()])).contains(p[0]) && p.last() == k
                && forall|i: int| 0 <= i < p.len() ==> !removed.insert(stack.last()).contains(#[trigger] p[i]),
{
    assert forall|k: usize| #[trigger] inline_reach(m0, roots).contains(k) && !removed.insert(stack.last()).contains(k) implies exists|p: Seq<usize>|
        #[trigger] inline_path(m0, p) && (stack.drop_last() + child_ids(m0[stack.last()])).contains(p[0]) && p.last() == k
            && forall|i: int| 0 <= i < p.len() ==> !removed.insert(stack.last()).contains(#[trigger] p[i]) by {
        let p = choose|p: Seq<usize>| #[trigger] inline_path(m0, p) && stack.contains(p[0]) && p.last() == k
            && forall|i: int| 0 <= i < p.len() ==> !removed.contains(#[trigger] p[i]);
        lemma_pending_one(m0, removed, stack, k, p);
    }
}

/// Removing the anonymous entry at the end of the work list and putting its fields on the
/// list keeps the removal invariant.
proof fn lemma_removal_take<T: StorageElem2>(
    m0: Map<usize, StorageInner<T>>,
    roots: Set<usize>,
    removed: Set<usize>,
    stack: Seq<usize>,
)
    requires
        stack.len() > 0,
        removal_inv(m0, roots, removed, stack),
        !removed.contains(stack.last()),
        m0.contains_key(stack.last()),
        m0[stack.last()] is Inline,
    ensures
        removal_inv(m0, roots, removed.insert(stack.last()), stack.drop_last() + child_ids(m0[stack.last()])),
{
    let x = stack.last();
    let kids = child_ids(m0[x]);
    let rest = stack.drop_last();
    let removed2 = removed.insert(x);
    let stack2 = rest + kids;
    assert(stack.contains(x)) by {
        assert(stack[stack.len() - 1] == x);
    }
    lemma_listed_is_reached(m0, roots, removed, stack, x);
    lemma_removal_take_pending(m0, roots, removed, stack);
    assert forall|y: usize| #[trigger] stack2.contains(y) implies roots.contains(y) || exists|r: usize|
        #[trigger] removed2.contains(r) && child_ids(m0[r]).contains(y) by {
        let j = choose|j: int| 0 <= j < stack2.len() && stack2[j] == y;
        if j < rest.len() {
            assert(stack[j] == y);
            assert(stack.contains(y));
            if !roots.contains(y) {
                let r = choose|r: usize| #[trigger] removed.contains(r) && child_ids(m0[r]).contains(y);
                assert(removed2.contains(r));
            }
        } else {
            assert(kids[j - rest.len()] == y);
            assert(removed2.contains(x));
        }
    }
}

impl<T: StorageElem2> Storage2<T> {
    /// The listed entries are exactly the named ones, each listed once.
    pub proof fn lemma_listed_are_named(&self)
        requires
            self.wf(),
        ensures
            self.order().no_duplicates(),
            forall|k: usize| #[trigger] self.order().contains(k) <==> (self.elements().contains_key(k) && self.elements()[k] is Named),
    {
    }

    /// A storage with a free identifier below `usize::MAX` can take another entry.
    pub proof fn lemma_free_id_can_add(&self, k: usize)
        requires
            self.wf(),
            k < usize::MAX,
            !self.elements().contains_key(k),
        ensures
            self.can_add(),
    {
        self.ids.lemma_free_id_can_allocate(k);
    }

    /// The identifiers in use are finitely many, so are the entries.
    pub proof fn lemma_finite(&self)
        requires
            self.wf(),
        ensures
            self.elements().dom().finite(),
    {
        self.ids.lemma_allocated_finite();
    }

    /// Removes the anonymous entries reached from `roots` through anonymous entries.
    fn remove_inline_from(&mut self, roots: Vec<usize>)
        requires
            old(self).wf(),
        ensures
            final(self).wf(),
            final(self).order() == old(self).order(),
            final(self).elements() == old(self).elements().remove_keys(inline_reach(old(self).elements(), roots@.to_set())),
    {
        let ghost m0 = self.storage@;
        let ghost rs = roots@.to_set();
        let ghost mut removed: Set<usize> = Set::empty();
        let mut stack = roots;
        proof {
            assert forall|k: usize| #[trigger] inline_reach(m0, rs).contains(k) && !removed.contains(k) implies exists|p: Seq<usize>|
                #[trigger] inline_path(m0, p) && stack@.contains(p[0]) && p.last() == k
                    && forall|i: int| 0 <= i < p.len() ==> !removed.contains(#[trigger] p[i]) by {
                let p = choose|p: Seq<usize>| #[trigger] inline_path(m0, p) && rs.contains(p[0]) && p.last() == k;
                assert(stack@.contains(p[0]));
            }
            assert(removal_inv(m0, rs, removed, stack@));
            assert(self.storage@ =~= m0.remove_keys(removed));
        }
        while stack.len() > 0
            invariant
                self.wf(),
                self.order() == old(self).order(),
                self.storage@ == m0.remove_keys(removed),
                removal_inv(m0, rs, removed, stack@),
            decreases self.storage@.dom().len(), stack@.len(),
        {
            proof {
                self.lemma_finite();
            }
            let ghost before = stack@;
            let x = stack.pop().unwrap();
            assert(x == before.last() && stack@ == before.drop_last());
            let take = match self.storage.get(&x) {
                Some(e) => e.is_inline(),
                None => false,
            };
            if take {
                let e = self.storage.remove(&x).unwrap();
                self.ids.remove_existing(UniqueId(x));
                let kids = e.as_ref().field_ids();
                let ghost base = stack@;
                let mut i: usize = 0;
                while i < kids.len()
                    invariant
                        i <= kids@.len(),
                        stack@ == base + kids@.subrange(0, i as int).map_values(|w: T::IdWrapper| w.id_of().0),
                    decreases kids@.len() - i,
                {
                    let w = kids[i];
                    stack.push(w.un_wrap().0);
                    proof {
                        assert(kids@.subrange(0, i + 1).map_values(|w: T::IdWrapper| w.id_of().0) =~= kids@.subrange(0, i as int).map_values(
                            |w: T::IdWrapper| w.id_of().0,
                        ).push(w.id_of().0));
                    }
                    i = i + 1;
                }
                proof {
                    assert(kids@.subrange(0, i as int) =~= kids@);
                    assert(stack@ =~= before.drop_last() + child_ids(m0[x]));
                    lemma_removal_take(m0, rs, removed, before);
                    removed = removed.insert(x);
                    assert(self.storage@ =~= m0.remove_keys(removed));
                    assert(self.storage@.dom() =~= self.ids.allocated());
                    assert(!self.storage_order@.contains(x));
                    assert forall|k: usize| #[trigger] self.storage_order@.contains(k) <==> (self.storage@.contains_key(k)
                        && self.storage@[k] is Named) by {
                        if k == x {
                            assert(old(self).storage_order@ == self.storage_order@);
                        }
                    }
                }
            } else {
                proof {
                    lemma_removal_skip(m0, rs, removed, before);
                }
            }
        }
        proof {
            assert(removed =~= inline_reach(m0, rs)) by {
                assert forall|k: usize| #[trigger] inline_reach(m0, rs).contains(k) implies removed.contains(k) by {
                    if !removed.contains(k) {
                        let p = choose|p: Seq<usize>| #[trigger] inline_path(m0, p) && stack@.contains(p[0]) && p.last() == k
                            && forall|i: int| 0 <= i < p.len() ==> !removed.contains(#[trigger] p[i]);
                        assert(stack@.len() == 0);
                    }
                }
            }
        }
    }
}

/// The entries left after removing entry `k` and, as fields, the anonymous entries it holds:
/// what [`Storage2::remove`] leaves.
pub open spec fn removed_with_fields<T: StorageElem2>(m: Map<usize, StorageInner<T>>, k: usize) -> Map<usize, StorageInner<T>> {
    m.remove(k).remove_keys(inline_reach(m.remove(k), child_ids(m[k]).to_set()))
}

impl<T: StorageElem2> Storage2<T> {
    /// Removes the entry `id` as the field of another one: when it is anonymous it goes,
    /// with the anonymous entries it holds, and theirs in turn; a named entry stays.
    pub fn remove_as_field(&mut self, id: T::IdWrapper)
        requires
            old(self).wf(),
            old(self).elements().contains_key(id.id_of().0),
        ensures
            final(self).wf(),
            final(self).order() == old(self).order(),
            final(self).elements() == old(self).elements().remove_keys(
                inline_reach(old(self).elements(), set![id.id_of().0]),
            ),
    {
        let k = id.un_wrap().0;
        let roots = vec![k];
        assert(roots@.to_set() =~= set![k]) by {
            assert(roots@[0] == k);
        }
        self.remove_inline_from(roots);
    }

    /// Removes the entry `id`, named or not, and, as fields, the anonymous entries it holds.
    pub fn remove(&mut self, id: T::IdWrapper)
        requires
            old(self).wf(),
            old(self).elements().contains_key(id.id_of().0),
        ensures
            final(self).wf(),
            final(self).elements() == removed_with_fields(old(self).elements(), id.id_of().0),
            old(self).elements()[id.id_of().0] is Named ==> exists|pos: int|
                0 <= pos < old(self).order().len() && old(self).order()[pos] == id.id_of().0
                && final(self).order() == old(self).order().remove(pos),
            old(self).elements()[id.id_of().0] is Inline ==> final(self).order() == old(self).order(),
    {
        let k = id.un_wrap().0;
        let ghost m0 = self.storage@;
        let e = self.storage.remove(&k).unwrap();
        self.ids.remove_existing(UniqueId(k));
        // Drop it from the list.
        let mut pos: usize = 0;
        while pos < self.storage_order.len() && self.storage_order[pos] != k
            invariant
                pos <= self.storage_order@.len(),
                self.storage_order@ == old(self).storage_order@,
                forall|j: int| 0 <= j < pos ==> self.storage_order@[j] != k,
            decreases self.storage_order@.len() - pos,
        {
            pos = pos + 1;
        }
        let ghost o = self.storage_order@;
        if pos < self.storage_order.len() {
            self.storage_order.remove(pos);
            proof {
                assert(o.contains(k));
                assert(m0[k] is Named);
            }
        } else {
            proof {
                if o.contains(k) {
                    let j = choose|j: int| 0 <= j < o.len() && o[j] == k;
                    assert(o[j] != k);
                }
            }
        }
        proof {
            assert(self.storage@.dom() =~= self.ids.allocated());
            let n = self.storage_order@;
            assert(n.no_duplicates()) by {
                assert forall|i: int, j: int| 0 <= i < n.len() && 0 <= j < n.len() && i != j implies n[i] != n[j] by {
                    if pos < o.len() {
                        let oi = if i < pos { i } else { i + 1 };
                        let oj = if j < pos { j } else { j + 1 };
                        assert(n[i] == o[oi] && n[j] == o[oj]);
                    }
                }
            }
            assert forall|x: usize| #[trigger] n.contains(x) <==> (self.storage@.contains_key(x) && self.storage@[x] is Named) by {
                if n.contains(x) {
                    let i = choose|i: int| 0 <= i < n.len() && n[i] == x;
                    if pos < o.len() {
                        let oi = if i < pos { i } else { i + 1 };
                        assert(o[oi] == x);
                        assert(o[pos as int] == k);
                        assert(x != k);
                    } else {
                        assert(o[i] == x);
                    }
                    assert(o.contains(x));
                }
                if self.storage@.contains_key(x) && self.storage@[x] is Named {
                    assert(x != k);
                    assert(o.contains(x));
                    let i = choose|i: int| 0 <= i < o.len() && o[i] == x;
                    if pos < o.len() {
                        assert(i != pos);
                        let ni = if i < pos { i } else { i - 1 };
                        assert(n[ni] == x);
                    } else {
                        assert(n[i] == x);
                    }
                }
            }
        }
        // Remove what it held inline.
        let kids = e.as_ref().field_ids();
        let mut roots: Vec<usize> = Vec::new();
        let mut i: usize = 0;
        while i < kids.len()
            invariant
                i <= kids@.len(),
                roots@ == kids@.subrange(0, i as int).map_values(|w: T::IdWrapper| w.id_of().0),
            decreases kids@.len() - i,
        {
            roots.push(kids[i].un_wrap().0);
            proof {
                assert(kids@.subrange(0, i + 1).map_values(|w: T::IdWrapper| w.id_of().0) =~= kids@.subrange(0, i as int).map_values(
                    |w: T::IdWrapper| w.id_of().0,
                ).push(kids@[i as int].id_of().0));
            }
            i = i + 1;
        }
        proof {
            assert(kids@.subrange(0, i as int) =~= kids@);
            assert(roots@ == child_ids(m0[k]));
            assert(self.storage@ =~= m0.remove(k));
        }
        let ghost list_after = self.storage_order@;
        self.remove_inline_from(roots);
        proof {
            if m0[k] is Named {
                assert(o.contains(k));
                if pos >= o.len() {
                    let j = choose|j: int| 0 <= j < o.len() && o[j] == k;
                    assert(o[j] != k);
                }
                assert(o[pos as int] == k);
                assert(list_after == o.remove(pos as int));
                assert(self.order() == old(self).order().remove(pos as int));
            } else {
                if pos < o.len() {
                    assert(o[pos as int] == k);
                    assert(o.contains(k));
                }
            }
        }
    }

    /// Removes the listed entry at position `pos`, and, as fields, the anonymous entries it
    /// holds.
    pub fn remove_by_pos(&mut self, pos: usize)
        requires
            old(self).wf(),
            pos < old(self).order().len(),
        ensures
            final(self).wf(),
            final(self).elements() == removed_with_fields(old(self).elements(), old(self).order()[pos as int]),
            final(self).order() == old(self).order().remove(pos as int),
    {
        let k = self.storage_order[pos];
        proof {
            assert(self.order().contains(k));
        }
        self.remove(T::IdWrapper::wrap(UniqueId(k)));
        proof {
            let pos2 = choose|p: int| 0 <= p < old(self).order().len() && old(self).order()[p] == k
                && self.order() == old(self).order().remove(p);
            assert(old(self).storage_order@.no_duplicates());
            assert(pos2 == pos);
        }
    }

    /// Flips the field `id` between an anonymous entry and a reference by name: an anonymous
    /// entry is removed and the field becomes empty; otherwise a new anonymous entry holding
    /// the default value is made under the smallest free identifier and the field refers to it.
    pub fn toggle_inline(&mut self, id: &mut Option<T::IdWrapper>)
        requires
            old(self).wf(),
            *old(id) is Some ==> old(self).elements().contains_key(old(id).unwrap().id_of().0),
            !(*old(id) is Some && old(self).elements()[old(id).unwrap().id_of().0] is Inline) ==> old(self).can_add(),
        ensures
            final(self).wf(),
            *old(id) is Some && old(self).elements()[old(id).unwrap().id_of().0] is Inline ==> {
                &&& *final(id) is None
                &&& final(self).elements() == removed_with_fields(old(self).elements(), old(id).unwrap().id_of().0)
                &&& final(self).order() == old(self).order()
            },
            !(*old(id) is Some && old(self).elements()[old(id).unwrap().id_of().0] is Inline) ==> {
                &&& *final(id) is Some
                &&& final(id).unwrap().id_of().0 == old(self).next_id()
                &&& !old(self).elements().contains_key(old(self).next_id())
                &&& final(self).elements().dom() == old(self).elements().dom().insert(old(self).next_id())
                &&& final(self).elements()[old(self).next_id()] is Inline
                &&& inner_value(final(self).elements()[old(self).next_id()]).is_default()
                &&& forall|k: usize| #[trigger] old(self).elements().contains_key(k) ==> final(self).elements()[k] == old(self).elements()[k]
                &&& final(self).order() == old(self).order()
            },
    {
        let inline = match *id {
            Some(w) => self.storage.get(&w.un_wrap().0).unwrap().is_inline(),
            None => false,
        };
        if inline {
            let w = id.unwrap();
            self.remove(w);
            *id = None;
        } else {
            let new_id = self.ids.get_unique();
            proof {
                let n = old(self).next_id();
                assert(!old(self).elements().contains_key(new_id.0) && forall|j: usize| j < new_id.0 ==> old(self).elements().contains_key(j));
                if n < new_id.0 {
                    assert(old(self).elements().contains_key(n));
                }
                if new_id.0 < n {
                    assert(old(self).elements().contains_key(new_id.0));
                }
            }
            self.storage.insert(new_id.0, StorageInner::Inline(T::new_default()));
            *id = Some(T::IdWrapper::wrap(new_id));
            proof {
                assert(self.storage@.dom() =~= self.ids.allocated());
                assert(!self.storage_order@.contains(new_id.0));
                assert forall|k: usize| #[trigger] self.storage_order@.contains(k) <==> (self.storage@.contains_key(k)
                    && self.storage@[k] is Named) by {
                    if k == new_id.0 {
                        assert(!old(self).storage@.contains_key(k));
                    }
                }
            }
        }
    }
}

impl<T: StorageElem2> Storage2<T> {
    /// Whether another entry can be added.
    pub fn has_room(&self) -> (result: bool)
        ensures
            result == self.can_add(),
    {
        self.ids.can_get()
    }

    /// Adds an anonymous entry holding `value` under the smallest free identifier, and
    /// returns that identifier.
    pub fn insert_inline(&mut self, value: T) -> (result: T::IdWrapper)
        requires
            old(self).wf(),
            old(self).can_add(),
        ensures
            final(self).wf(),
            result.id_of().0 == old(self).next_id(),
            !old(self).elements().contains_key(old(self).next_id()),
            final(self).elements() == old(self).elements().insert(old(self).next_id(), StorageInner::Inline(value)),
            final(self).order() == old(self).order(),
    {
        let new_id = self.ids.get_unique();
        proof {
            let n = old(self).next_id();
            assert(!old(self).elements().contains_key(new_id.0) && forall|j: usize| j < new_id.0 ==> old(self).elements().contains_key(j));
            if n < new_id.0 {
                assert(old(self).elements().contains_key(n));
            }
            if new_id.0 < n {
                assert(old(self).elements().contains_key(new_id.0));
            }
        }
        self.storage.insert(new_id.0, StorageInner::Inline(value));
        proof {
            assert(self.storage@.dom() =~= self.ids.allocated());
            assert(!self.storage_order@.contains(new_id.0));
            assert forall|k: usize| #[trigger] self.storage_order@.contains(k) <==> (self.storage@.contains_key(k)
                && self.storage@[k] is Named) by {
                if k == new_id.0 {
                    assert(!old(self).storage@.contains_key(k));
                }
            }
        }
        T::IdWrapper::wrap(new_id)
    }
}

/// Whether `w` is a copy of `v` with each of its fields renumbered by `map`.
pub open spec fn renumbered_value<T: StorageElem2>(map: Map<usize, usize>, v: T, w: T) -> bool {
    exists|c: T, ids: Seq<Option<T::IdWrapper>>|
        {
            &&& cloned(v, c)
            &&& ids.len() == c.fields().len()
            &&& forall|i: int|
                0 <= i < ids.len() ==> (#[trigger] ids[i]) is Some && ids[i].unwrap().id_of().0 == mapped(
                    map,
                    c.fields()[i].id_of().0,
                )
            &&& w == #[trigger] c.with_fields(ids)
        }
}

/// Whether `map` sends the identifiers of `m` to distinct identifiers below `usize::MAX`.
pub open spec fn renumbering_fits<T>(m: Map<usize, StorageInner<T>>, map: Map<usize, usize>) -> bool {
    &&& forall|k: usize| #[trigger] m.contains_key(k) ==> mapped(map, k) < usize::MAX
    &&& forall|a: usize, b: usize| #[trigger] m.contains_key(a) && #[trigger] m.contains_key(b) && a != b ==> mapped(map, a) != mapped(map, b)
}

/// Renumbers `k` by `map`.
fn renumber(map: &BTreeMap<usize, usize>, k: usize) -> (result: usize)
    ensures
        result == mapped(map@, k),
{
    match map.get(&k) {
        Some(v) => *v,
        None => k,
    }
}

/// A copy of `v` with each of its fields renumbered by `map`.
fn renumbered<T: StorageElem2>(map: &BTreeMap<usize, usize>, v: &T) -> (result: T)
    ensures
        renumbered_value(map@, *v, result),
{
    let c = v.clone();
    let f = c.field_ids();
    let mut ids: Vec<Option<T::IdWrapper>> = Vec::new();
    let mut j: usize = 0;
    while j < f.len()
        invariant
            f@ == c.fields(),
            j <= f@.len(),
            ids@.len() == j,
            forall|i: int| 0 <= i < j ==> (#[trigger] ids@[i]) is Some && ids@[i].unwrap().id_of().0 == mapped(map@, f@[i].id_of().0),
        decreases f@.len() - j,
    {
        let n = renumber(map, f[j].un_wrap().0);
        ids.push(Some(T::IdWrapper::wrap(UniqueId(n))));
        j = j + 1;
    }
    let ghost ids_v = ids@;
    let w = c.replace_fields(&ids);
    assert(w == c.with_fields(ids_v));
    w
}

impl<T: StorageElem2> Storage2<T> {
    /// The storage with every identifier renumbered by `map`: each entry moves to its new
    /// identifier, keeping its name, with a copy of its value whose fields are renumbered;
    /// the listed entries keep their places.
    pub fn remap_ids(&self, map: &BTreeMap<usize, usize>) -> (result: Storage2<T>)
        requires
            self.wf(),
            renumbering_fits(self.elements(), map@),
        ensures
            result.wf(),
            forall|k: usize| #[trigger] self.elements().contains_key(k) ==> result.elements().contains_key(mapped(map@, k))
                && result.elements()[mapped(map@, k)] == with_value(
                self.elements()[k],
                inner_value(result.elements()[mapped(map@, k)]),
            ) && renumbered_value(map@, inner_value(self.elements()[k]), inner_value(result.elements()[mapped(map@, k)])),
            forall|k: usize| #[trigger] result.elements().contains_key(k) ==> exists|j: usize| #[trigger] self.elements().contains_key(j) && mapped(map@, j) == k,
            result.order() == self.order().map_values(|k: usize| mapped(map@, k)),
    {
        let ghost m = self.storage@;
        let ghost mm = map@;
        let mut storage: BTreeMap<usize, StorageInner<T>> = BTreeMap::new();
        let mut keys: Vec<usize> = Vec::new();
        for kv in it: self.storage.iter()
            invariant
                self.storage@ == m,
                map@ == mm,
                renumbering_fits(m, mm),
                it.seq().no_duplicates(),
                forall|i: int| 0 <= i < it.seq().len() ==> m.contains_key(*(#[trigger] it.seq()[i]).0) && m[*it.seq()[i].0] == *it.seq()[i].1,
                forall|k: usize| #[trigger] m.contains_key(k) ==> exists|i: int| 0 <= i < it.seq().len() && *(#[trigger] it.seq()[i]).0 == k,
                keys@.len() == it.index(),
                forall|a: int| 0 <= a < it.index() ==> #[trigger] keys@[a] == mapped(mm, *it.seq()[a].0),
                forall|a: int| 0 <= a < it.index() ==> {
                    let k = *(#[trigger] it.seq()[a]).0;
                    &&& storage@.contains_key(mapped(mm, k))
                    &&& storage@[mapped(mm, k)] == with_value(m[k], inner_value(storage@[mapped(mm, k)]))
                    &&& renumbered_value(mm, inner_value(m[k]), inner_value(storage@[mapped(mm, k)]))
                },
                forall|x: usize| #[trigger] storage@.contains_key(x) ==> exists|a: int| 0 <= a < keys@.len() && #[trigger] keys@[a] == x,
                forall|a: int| 0 <= a < keys@.len() ==> storage@.contains_key(#[trigger] keys@[a]),
        {
            let (k, e) = kv;
            let ghost idx = it.index();
            let nk = renumber(map, *k);
            let w = renumbered(map, e.as_ref());
            let ne = match e {
                StorageInner::Named(_, n) => StorageInner::Named(w, n.clone()),
                StorageInner::Inline(_) => StorageInner::Inline(w),
            };
            let ghost before = storage@;
            let ghost keys0 = keys@;
            storage.insert(nk, ne);
            keys.push(nk);
            proof {
                assert(*it.seq()[idx].0 == *k);
                assert forall|a: int| 0 <= a < idx implies #[trigger] keys0[a] != nk by {
                    let ka = *it.seq()[a].0;
                    if ka == *k {
                        assert(it.seq()[a] == it.seq()[idx]);
                    }
                    assert(m.contains_key(ka) && m.contains_key(*k));
                }
                assert forall|a: int| 0 <= a < idx + 1 implies {
                    let kk = *(#[trigger] it.seq()[a]).0;
                    &&& storage@.contains_key(mapped(mm, kk))
                    &&& storage@[mapped(mm, kk)] == with_value(m[kk], inner_value(storage@[mapped(mm, kk)]))
                    &&& renumbered_value(mm, inner_value(m[kk]), inner_value(storage@[mapped(mm, kk)]))
                } by {
                    if a < idx {
                        assert(keys0[a] == mapped(mm, *it.seq()[a].0));
                        assert(keys0[a] != nk);
                    }
                }
                assert forall|a: int| 0 <= a < keys@.len() implies storage@.contains_key(#[trigger] keys@[a]) by {
                    if a < idx {
                        assert(keys@[a] == keys0[a]);
                        assert(before.contains_key(keys0[a]));
                    }
                }
                assert forall|x: usize| #[trigger] storage@.contains_key(x) implies exists|a: int| 0 <= a < keys@.len() && #[trigger] keys@[a] == x by {
                    if x == nk {
                        assert(keys@[idx] == x);
                    } else {
                        let a = choose|a: int| 0 <= a < idx && #[trigger] keys0[a] == x;
                        assert(keys@[a] == x);
                    }
                }
            }
        }
        let mut order: Vec<usize> = Vec::new();
        let mut i: usize = 0;
        while i < self.storage_order.len()
            invariant
                self.storage_order@ == self.order(),
                map@ == mm,
                i <= self.order().len(),
                order@ == self.order().take(i as int).map_values(|k: usize| mapped(mm, k)),
            decreases self.order().len() - i,
        {
            let n = renumber(map, self.storage_order[i]);
            order.push(n);
            i = i + 1;
            assert(order@ =~= self.order().take(i as int).map_values(|k: usize| mapped(mm, k)));
        }
        assert(self.order().take(i as int) =~= self.order());
        proof {
            assert forall|a: int| 0 <= a < keys@.len() implies #[trigger] keys@[a] < usize::MAX by {
            }
        }
        let ids = UniqueIds::with_allocated(&keys);
        let result = Storage2 { ids, storage, storage_order: order };
        proof {
            let n = result.storage@;
            assert forall|k: usize| #[trigger] m.contains_key(k) implies n.contains_key(mapped(mm, k)) && n[mapped(mm, k)] == with_value(
                m[k],
                inner_value(n[mapped(mm, k)]),
            ) by {
                assert(self.elements().contains_key(k));
            }
            assert forall|x: usize| #[trigger] n.contains_key(x) implies exists|j: usize| #[trigger] m.contains_key(j) && mapped(mm, j) == x by {
                assert(result.elements().contains_key(x));
            }
            assert(n.dom() =~= keys@.to_set()) by {
                assert forall|x: usize| n.contains_key(x) <==> keys@.to_set().contains(x) by {
                    if n.contains_key(x) {
                        let a = choose|a: int| 0 <= a < keys@.len() && #[trigger] keys@[a] == x;
                        assert(keys@.contains(x));
                    }
                    if keys@.to_set().contains(x) {
                        let a = choose|a: int| 0 <= a < keys@.len() && keys@[a] == x;
                        assert(n.contains_key(keys@[a]));
                    }
                }
            }
            let o = self.order();
            assert(o.no_duplicates());
            assert forall|a: int| 0 <= a < o.len() implies m.contains_key(#[trigger] o[a]) && m[o[a]] is Named by {
                assert(o.contains(o[a]));
            }
            assert(order@.no_duplicates()) by {
                assert forall|a: int, b: int| 0 <= a < order@.len() && 0 <= b < order@.len() && a != b implies order@[a] != order@[b] by {
                    assert(m.contains_key(o[a]) && m.contains_key(o[b]));
                    assert(o[a] != o[b]);
                }
            }
            assert forall|x: usize| #[trigger] order@.contains(x) <==> (n.contains_key(x) && n[x] is Named) by {
                if order@.contains(x) {
                    let a = choose|a: int| 0 <= a < order@.len() && order@[a] == x;
                    assert(m.contains_key(o[a]) && m[o[a]] is Named);
                    assert(n.contains_key(mapped(mm, o[a])));
                }
                if n.contains_key(x) && n[x] is Named {
                    let j = choose|j: usize| #[trigger] m.contains_key(j) && mapped(mm, j) == x;
                    assert(n[mapped(mm, j)] == with_value(m[j], inner_value(n[mapped(mm, j)])));
                    assert(m[j] is Named);
                    assert(o.contains(j));
                    let a = choose|a: int| 0 <= a < o.len() && o[a] == j;
                    assert(order@[a] == x);
                }
            }
        }
        result
    }
}

impl<T: StorageElem2> Default for Storage2<T> {
    /// An empty storage.
    fn default() -> (result: Self)
        ensures
            result.wf(),
            result.elements() == Map::<usize, StorageInner<T>>::empty(),
            result.order() == Seq::<usize>::empty(),
            result.can_add(),
    {
        Storage2::new()
    }
}

impl<T: StorageElem2> Storage2<T> {
    /// Gives the listed entry `id` the name `name`, as editing its name does.
    pub fn rename(&mut self, id: T::IdWrapper, name: String)
        requires
            old(self).wf(),
            old(self).elements().contains_key(id.id_of().0),
            old(self).elements()[id.id_of().0] is Named,
        ensures
            final(self).wf(),
            final(self).order() == old(self).order(),
            final(self).elements() == old(self).elements().insert(
                id.id_of().0,
                StorageInner::Named(inner_value(old(self).elements()[id.id_of().0]), name),
            ),
    {
        let k = id.un_wrap().0;
        let e = self.storage.remove(&k).unwrap();
        let renamed = match e {
            StorageInner::Named(t, _) => StorageInner::Named(t, name),
            StorageInner::Inline(t) => StorageInner::Inline(t),
        };
        self.storage.insert(k, renamed);
        proof {
            assert(self.storage@.dom() =~= old(self).storage@.dom());
            assert forall|j: usize| #[trigger] self.storage_order@.contains(j) <==> (self.storage@.contains_key(j)
                && self.storage@[j] is Named) by {
                if j == k {
                    assert(old(self).storage@.contains_key(j));
                }
            }
        }
    }

    /// The entry named `name` with the smallest identifier, as a field that refers to an
    /// element by name looks it up.
    pub fn lookup_name(&self, name: &str) -> (result: Option<T::IdWrapper>)
        requires
            self.wf(),
        ensures
            match result {
                Some(w) => self.elements().contains_key(w.id_of().0) && named_as(self.elements()[w.id_of().0], name@)
                    && forall|k: usize| #[trigger] self.elements().contains_key(k) && k < w.id_of().0
                        ==> !named_as(self.elements()[k], name@),
                None => forall|k: usize| #[trigger] self.elements().contains_key(k) ==> !named_as(self.elements()[k], name@),
            },
    {
        let max = self.ids.max();
        proof {
            self.ids.lemma_allocated_below_max();
        }
        let mut i: usize = 0;
        while i < max
            invariant
                self.wf(),
                max == self.ids.spec_max(),
                forall|k: usize| #[trigger] self.elements().contains_key(k) ==> k < max,
                i <= max,
                forall|k: usize| #[trigger] self.elements().contains_key(k) && k < i ==> !named_as(self.elements()[k], name@),
            decreases max - i,
        {
            match self.storage.get(&i) {
                Some(e) => {
                    if e.is_named_as(name) {
                        let w = T::IdWrapper::wrap(UniqueId(i));
                        return Some(w);
                    }
                },
                None => {},
            }
            i = i + 1;
        }
        None
    }
}

/// Removing entries as fields only ever takes anonymous ones: every entry reached is
/// anonymous and reached through anonymous entries.
pub proof fn lemma_reach_only_inline<T: StorageElem2>(m: Map<usize, StorageInner<T>>, roots: Set<usize>, k: usize)
    requires
        inline_reach(m, roots).contains(k),
    ensures
        m.contains_key(k),
        m[k] is Inline,
{
    let p = choose|p: Seq<usize>| #[trigger] inline_path(m, p) && roots.contains(p[0]) && p.last() == k;
    assert(p[p.len() - 1] == k);
}

/// Removing a named entry as a field removes nothing at all.
pub proof fn lemma_named_field_stays<T: StorageElem2>(m: Map<usize, StorageInner<T>>, id: usize)
    requires
        m.contains_key(id),
        m[id] is Named,
    ensures
        inline_reach(m, set![id]) == Set::<usize>::empty(),
        m.remove_keys(inline_reach(m, set![id])) == m,
{
    assert forall|k: usize| !#[trigger] inline_reach(m, set![id]).contains(k) by {
        if inline_reach(m, set![id]).contains(k) {
            let p = choose|p: Seq<usize>| #[trigger] inline_path(m, p) && set![id].contains(p[0]) && p.last() == k;
            assert(p[0] == id);
        }
    }
    assert(inline_reach(m, set![id]) =~= Set::<usize>::empty());
    assert(m.remove_keys(inline_reach(m, set![id])) =~= m);
}

/// An anonymous entry removed as a field always goes itself.
pub proof fn lemma_inline_field_goes<T: StorageElem2>(m: Map<usize, StorageInner<T>>, id: usize)
    requires
        m.contains_key(id),
        m[id] is Inline,
    ensures
        inline_reach(m, set![id]).contains(id),
{
    let p = seq![id];
    assert(inline_path(m, p));
}

/// Adding an entry whose value holds no fields and removing it again gives back the entries
/// there were, as when an empty field is toggled twice with `toggle_inline`, or when the
/// entry `push_default` just listed is removed; removing the last listed entry also gives back
/// the list there was.
pub proof fn lemma_add_then_remove_restores<T: StorageElem2>(m: Map<usize, StorageInner<T>>, order: Seq<usize>, n: usize, e: StorageInner<T>)
    requires
        !m.contains_key(n),
        inner_value(e).fields().len() == 0,
    ensures
        removed_with_fields(m.insert(n, e), n) == m,
        order.push(n).remove(order.len() as int) == order,
{
    let m1 = m.insert(n, e);
    assert(m1.remove(n) =~= m);
    assert(child_ids(m1[n]).to_set() =~= Set::<usize>::empty());
    assert(inline_reach(m, Set::<usize>::empty()) =~= Set::<usize>::empty()) by {
        assert forall|k: usize| !#[trigger] inline_reach(m, Set::<usize>::empty()).contains(k) by {
            if inline_reach(m, Set::<usize>::empty()).contains(k) {
                let p = choose|p: Seq<usize>| #[trigger] inline_path(m, p) && Set::<usize>::empty().contains(p[0]) && p.last() == k;
            }
        }
    }
    assert(m.remove_keys(Set::<usize>::empty()) =~= m);
    assert(order.push(n).remove(order.len() as int) =~= order);
}

} // verus!
