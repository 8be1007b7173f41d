use crate::error_count::{field_errors, lemma_field_errors_concat, lemma_field_errors_push, ErrorCounting};
use crate::ids::Wrapper;
use crate::animation::{Animation, RealAnimationPart};
use crate::storage2::{inline_reach, inner_value, named_as, with_value, StorageElem2, StorageInner, Storage2};
use crate::unique_id::UniqueId;
use std::collections::BTreeMap;
use vstd::prelude::*;

verus! {

broadcast use vstd::std_specs::btree::group_btree_axioms;

/// The values of the elements in the developer's setup, by raw identifier.
pub struct DevStageChanging<T: StorageElem2>(pub BTreeMap<usize, T>);

impl<T: StorageElem2> DevStageChanging<T> {
    /// Puts the developer's values back into the storage, keeping names; identifiers
    /// without an entry in the storage are skipped.
    pub fn init_stage(&self, storage: &mut Storage2<T>)
        requires
            old(storage).wf(),
        ensures
            final(storage).wf(),
            final(storage).order() == old(storage).order(),
            final(storage).elements().dom() == old(storage).elements().dom(),
            forall|k: usize| #[trigger] old(storage).elements().contains_key(k) && !self.0@.contains_key(k)
                ==> final(storage).elements()[k] == old(storage).elements()[k],
            forall|k: usize| #[trigger] old(storage).elements().contains_key(k) && self.0@.contains_key(k)
                ==> exists|v: T| cloned(self.0@[k], v) && final(storage).elements()[k] == with_value(old(storage).elements()[k], v),
    {
        for kv in it: self.0.iter()
            invariant
                storage.wf(),
                storage.order() == old(storage).order(),
                storage.elements().dom() == old(storage).elements().dom(),
                it.seq().len() == self.0@.dom().len(),
                forall|i: int| 0 <= i < it.seq().len() ==> self.0@.contains_key(*(#[trigger] it.seq()[i]).0) && self.0@[*it.seq()[i].0] == *it.seq()[i].1,
                it.seq().no_duplicates(),
                forall|k: usize| #[trigger] self.0@.contains_key(k) ==> it.seq().contains((&k, &self.0@[k])),
                forall|k: usize| #[trigger] old(storage).elements().contains_key(k)
                    && !(exists|i: int| 0 <= i < it.index() && *(#[trigger] it.seq()[i]).0 == k)
                    ==> storage.elements()[k] == old(storage).elements()[k],
                forall|k: usize| #[trigger] old(storage).elements().contains_key(k)
                    && (exists|i: int| 0 <= i < it.index() && *(#[trigger] it.seq()[i]).0 == k)
                    ==> exists|v: T| cloned(self.0@[k], v) && storage.elements()[k] == with_value(old(storage).elements()[k], v),
        {
            let (k, v) = kv;
            let value = v.clone();
            let ghost before = storage.elements();
            let ghost idx = it.index();
            storage.set(T::IdWrapper::wrap(UniqueId(*k)), value);
            proof {
                assert(it.seq()[idx].0 == k);
                assert forall|j: int| 0 <= j < idx implies *(#[trigger] it.seq()[j]).0 != *k by {
                    if *it.seq()[j].0 == *k {
                        assert(it.seq()[j].1 == it.seq()[idx].1);
                        assert(it.seq()[j] == it.seq()[idx]);
                    }
                }
            }
        }

    }
}

/// The chosen ones among `s`, in order.
pub open spec fn chosen<W>(s: Seq<Option<W>>) -> Seq<W>
    decreases s.len(),
{
    if s.len() == 0 {
        Seq::<W>::empty()
    } else {
        match s.last() {
            Some(w) => chosen(s.drop_last()).push(w),
            None => chosen(s.drop_last()),
        }
    }
}

/// Choosing from one more option adds it when it is chosen.
proof fn lemma_chosen_step<W>(s: Seq<Option<W>>, i: int)
    requires
        0 <= i < s.len(),
    ensures
        chosen(s.take(i + 1)) == match s[i] {
            Some(w) => chosen(s.take(i)).push(w),
            None => chosen(s.take(i)),
        },
{
    assert(s.take(i + 1).drop_last() =~= s.take(i));
}

/// The raw identifiers of a list of elements.
pub open spec fn raw_ids<W: Wrapper>(s: Seq<W>) -> Seq<usize> {
    s.map_values(|w: W| w.id_of().0)
}

/// Adding up the problems of the chosen elements of `s`, as anonymous fields of `m`, one
/// option after the other: each step adds those of the option's element, if chosen.
proof fn lemma_chosen_errors_step<T: ErrorCounting>(m: Map<usize, StorageInner<T>>, input: T::ErrorInput, s: Seq<Option<T::IdWrapper>>, i: int)
    requires
        0 <= i < s.len(),
    ensures
        field_errors(m, input, raw_ids(chosen(s.take(i + 1)))) == field_errors(m, input, raw_ids(chosen(s.take(i))))
            + match s[i] {
            Some(w) => crate::error_count::entry_errors(m, input, w.id_of().0, false),
            None => 0,
        },
        field_errors(m, input, raw_ids(chosen(s.take(i + 1)))) <= field_errors(m, input, raw_ids(chosen(s))),
{
    lemma_chosen_step(s, i);
    match s[i] {
        Some(w) => {
            assert(raw_ids(chosen(s.take(i)).push(w)) =~= raw_ids(chosen(s.take(i))).push(w.id_of().0));
            lemma_field_errors_push(m, input, raw_ids(chosen(s.take(i))), w.id_of().0);
        },
        None => {},
    }
    lemma_chosen_concat(s.take(i + 1), s.skip(i + 1));
    assert(s.take(i + 1) + s.skip(i + 1) =~= s);
    assert(raw_ids(chosen(s.take(i + 1)) + chosen(s.skip(i + 1))) =~= raw_ids(chosen(s.take(i + 1))) + raw_ids(chosen(s.skip(i + 1))));
    lemma_field_errors_concat(m, input, raw_ids(chosen(s.take(i + 1))), raw_ids(chosen(s.skip(i + 1))));
}

/// Choosing from a concatenation chooses from each part.
proof fn lemma_chosen_concat<W>(a: Seq<Option<W>>, b: Seq<Option<W>>)
    ensures
        chosen(a + b) == chosen(a) + chosen(b),
    decreases b.len(),
{
    if b.len() == 0 {
        assert(a + b =~= a);
        assert(chosen(a) + chosen(b) =~= chosen(a));
    } else {
        lemma_chosen_concat(a, b.drop_last());
        assert((a + b).drop_last() =~= a + b.drop_last());
        match b.last() {
            Some(w) => {
                assert(chosen(a) + chosen(b.drop_last()).push(w) =~= (chosen(a) + chosen(b.drop_last())).push(w));
            },
            None => {},
        }
    }
}

/// The entries left after removing, one after the other and as fields, the elements `ids`;
/// `None` where one of them is gone by its turn.
pub open spec fn after_removals<T: StorageElem2>(m: Map<usize, StorageInner<T>>, ids: Seq<T::IdWrapper>) -> Option<Map<usize, StorageInner<T>>>
    decreases ids.len(),
{
    if ids.len() == 0 {
        Some(m)
    } else {
        match after_removals(m, ids.drop_last()) {
            Some(m1) => if m1.contains_key(ids.last().id_of().0) {
                Some(m1.remove_keys(inline_reach(m1, set![ids.last().id_of().0])))
            } else {
                None
            },
            None => None,
        }
    }
}

proof fn lemma_after_removals_prefix<T: StorageElem2>(m: Map<usize, StorageInner<T>>, ids: Seq<T::IdWrapper>, n: int)
    requires
        0 <= n <= ids.len(),
        after_removals(m, ids) is Some,
    ensures
        after_removals(m, ids.subrange(0, n)) is Some,
    decreases ids.len() - n,
{
    if n < ids.len() {
        assert(ids.drop_last() =~= ids.subrange(0, ids.len() - 1));
        lemma_after_removals_prefix(m, ids.drop_last(), n);
        assert(ids.drop_last().subrange(0, n) =~= ids.subrange(0, n));
    } else {
        assert(ids.subrange(0, n) =~= ids);
    }
}

/// Removing the chosen ones of a prefix of `s` is possible when removing all of them is.
proof fn lemma_removals_of_prefix<T: StorageElem2>(m: Map<usize, StorageInner<T>>, s: Seq<Option<T::IdWrapper>>, n: int)
    requires
        0 <= n <= s.len(),
        after_removals(m, chosen(s)) is Some,
    ensures
        after_removals(m, chosen(s.subrange(0, n))) is Some,
{
    lemma_chosen_concat(s.subrange(0, n), s.subrange(n, s.len() as int));
    assert(s.subrange(0, n) + s.subrange(n, s.len() as int) =~= s);
    let c = chosen(s.subrange(0, n));
    assert(chosen(s).subrange(0, c.len() as int) =~= c);
    lemma_after_removals_prefix(m, chosen(s), c.len() as int);
}

/// Whether the keys of `e` strictly increase.
pub open spec fn sorted_by_key<V>(e: Seq<(usize, V)>) -> bool {
    forall|i: int, j: int| 0 <= i < j < e.len() ==> (#[trigger] e[i]).0 < (#[trigger] e[j]).0
}

/// The entries `e` as a map from key to value.
pub open spec fn as_map<V>(e: Seq<(usize, V)>) -> Map<usize, V> {
    Map::new(
        |k: usize| exists|i: int| 0 <= i < e.len() && (#[trigger] e[i]).0 == k,
        |k: usize| e[choose|i: int| 0 <= i < e.len() && (#[trigger] e[i]).0 == k].1,
    )
}

proof fn lemma_as_map_at<V>(e: Seq<(usize, V)>, i: int)
    requires
        sorted_by_key(e),
        0 <= i < e.len(),
    ensures
        as_map(e).contains_key(e[i].0),
        as_map(e)[e[i].0] == e[i].1,
{
    let k = e[i].0;
    assert(exists|j: int| 0 <= j < e.len() && (#[trigger] e[j]).0 == k);
    let j = choose|j: int| 0 <= j < e.len() && (#[trigger] e[j]).0 == k;
    if j < i {
        assert(e[j].0 < e[i].0);
    }
    if i < j {
        assert(e[i].0 < e[j].0);
    }
}

/// The entries of `m` by increasing key.
pub open spec fn sorted_entries<V>(m: Map<usize, V>) -> Seq<(usize, V)> {
    choose|e: Seq<(usize, V)>| sorted_by_key(e) && as_map(e) == m
}

/// The pairs of `e` with their values taken from behind the references.
pub open spec fn derefed<V>(e: Seq<(usize, &V)>) -> Seq<(usize, V)> {
    e.map_values(|p: (usize, &V)| (p.0, *p.1))
}

/// Two lists sorted by key that make the same map are the same list.
proof fn lemma_sorted_by_key_unique<V>(a: Seq<(usize, V)>, b: Seq<(usize, V)>)
    requires
        sorted_by_key(a),
        sorted_by_key(b),
        as_map(a) == as_map(b),
    ensures
        a == b,
    decreases a.len(),
{
    if a.len() > 0 && b.len() > 0 {
        let n = a.len() - 1;
        let p = b.len() - 1;
        lemma_as_map_at(a, n);
        lemma_as_map_at(b, p);
        let kb = b[p].0;
        let i = choose|i: int| 0 <= i < a.len() && (#[trigger] a[i]).0 == kb;
        let ka = a[n].0;
        let j = choose|j: int| 0 <= j < b.len() && (#[trigger] b[j]).0 == ka;
        if i < n {
            assert(a[i].0 < a[n].0);
            if j < p {
                assert(b[j].0 < b[p].0);
            }
        }
        if j < p {
            assert(b[j].0 < b[p].0);
        }
        assert(ka == kb);
        let a2 = a.drop_last();
        let b2 = b.drop_last();
        assert(as_map(a2) =~= as_map(b2)) by {
            assert forall|k: usize| #[trigger] as_map(a2).contains_key(k) <==> as_map(b2).contains_key(k) by {
                if as_map(a2).contains_key(k) {
                    let x = choose|x: int| 0 <= x < a2.len() && (#[trigger] a2[x]).0 == k;
                    assert(a[x].0 < a[n].0);
                    lemma_as_map_at(a, x);
                    let y = choose|y: int| 0 <= y < b.len() && (#[trigger] b[y]).0 == k;
                    assert(y != p);
                    assert(b2[y].0 == k);
                }
                if as_map(b2).contains_key(k) {
                    let y = choose|y: int| 0 <= y < b2.len() && (#[trigger] b2[y]).0 == k;
                    assert(b[y].0 < b[p].0);
                    lemma_as_map_at(b, y);
                    let x = choose|x: int| 0 <= x < a.len() && (#[trigger] a[x]).0 == k;
                    assert(x != n);
                    assert(a2[x].0 == k);
                }
            }
            assert forall|k: usize| #[trigger] as_map(a2).contains_key(k) implies as_map(a2)[k] == as_map(b2)[k] by {
                let x = choose|x: int| 0 <= x < a2.len() && (#[trigger] a2[x]).0 == k;
                let y = choose|y: int| 0 <= y < b2.len() && (#[trigger] b2[y]).0 == k;
                assert(sorted_by_key(a2) && sorted_by_key(b2));
                lemma_as_map_at(a2, x);
                lemma_as_map_at(b2, y);
                lemma_as_map_at(a, x);
                lemma_as_map_at(b, y);
            }
        }
        assert(sorted_by_key(a2) && sorted_by_key(b2));
        lemma_sorted_by_key_unique(a2, b2);
        assert(a =~= a2.push(a[n]));
        assert(b =~= b2.push(b[p]));
    } else if a.len() > 0 {
        lemma_as_map_at(a, 0);
    } else if b.len() > 0 {
        lemma_as_map_at(b, 0);
    }
}

/// The entries of `m` by increasing key, with references to the values.
fn listed<V>(m: &BTreeMap<usize, V>) -> (result: Vec<(usize, &V)>)
    ensures
        derefed(result@) == sorted_entries(m@),
{
    let ghost mm = m@;
    let mut result: Vec<(usize, &V)> = Vec::new();
    let iter = m.iter();
    let ghost rem = vstd::std_specs::iter::IteratorSpec::remaining(&iter);
    proof {
        broadcast use vstd::laws_cmp::group_laws_cmp;
        let keys = rem.map_values(|kv: (&usize, &V)| *kv.0);
        assert(vstd::laws_cmp::obeys_cmp::<usize>());
        assert(vstd::std_specs::btree::increasing_seq(keys));
        assert forall|i: int, j: int| 0 <= i < j < rem.len() implies *rem[i].0 < *rem[j].0 by {
            assert(keys[i] == *rem[i].0 && keys[j] == *rem[j].0);
            assert(vstd::std_specs::cmp::OrdSpec::cmp_spec(&keys[i], &keys[j]) is Less);
        }
    }
    for kv in it: iter
        invariant
            m@ == mm,
            forall|i: int, j: int| 0 <= i < j < it.seq().len() ==> *(#[trigger] it.seq()[i]).0 < *(#[trigger] it.seq()[j]).0,
            forall|i: int| 0 <= i < it.seq().len() ==> mm.contains_key(*(#[trigger] it.seq()[i]).0) && mm[*it.seq()[i].0] == *it.seq()[i].1,
            forall|k: usize| #[trigger] mm.contains_key(k) ==> it.seq().contains((&k, &mm[k])),
            forall|k: usize| #[trigger] mm.contains_key(k) ==> (exists|a: int| 0 <= a < result@.len() && (#[trigger] result@[a]).0 == k)
                || (exists|i: int| it.index() <= i < it.seq().len() && *(#[trigger] it.seq()[i]).0 == k),
            result@.len() == it.index(),
            forall|a: int| 0 <= a < it.index() ==> (#[trigger] result@[a]).0 == *it.seq()[a].0 && result@[a].1 == it.seq()[a].1,
    {
        let (k, v) = kv;
        let ghost idx = it.index();
        let ghost before = result@;
        result.push((*k, v));
        proof {
            assert(*it.seq()[idx].0 == *k);
            assert forall|x: usize| #[trigger] mm.contains_key(x) implies (exists|a: int| 0 <= a < result@.len() && (#[trigger] result@[a]).0 == x)
                || (exists|i: int| idx + 1 <= i < it.seq().len() && *(#[trigger] it.seq()[i]).0 == x) by {
                if exists|i: int| idx <= i < it.seq().len() && *(#[trigger] it.seq()[i]).0 == x {
                    let i = choose|i: int| idx <= i < it.seq().len() && *(#[trigger] it.seq()[i]).0 == x;
                    if i == idx {
                        assert(result@[idx].0 == x);
                    } else {
                        assert(idx + 1 <= i < it.seq().len() && *it.seq()[i].0 == x);
                    }
                } else {
                    let a = choose|a: int| 0 <= a < before.len() && (#[trigger] before[a]).0 == x;
                    assert(result@[a] == before[a]);
                }
            }
        }
    }
    let ghost e = derefed(result@);
    proof {
        assert(sorted_by_key(e));
        assert(as_map(e) =~= mm) by {
            assert forall|k: usize| #[trigger] as_map(e).contains_key(k) <==> mm.contains_key(k) by {
                if mm.contains_key(k) {
                    let a = choose|a: int| 0 <= a < result@.len() && (#[trigger] result@[a]).0 == k;
                    assert(e[a].0 == k);
                }
                if as_map(e).contains_key(k) {
                    let a = choose|a: int| 0 <= a < e.len() && (#[trigger] e[a]).0 == k;
                    assert(result@[a].0 == k);
                }
            }
            assert forall|k: usize| #[trigger] as_map(e).contains_key(k) implies as_map(e)[k] == mm[k] by {
                let a = choose|a: int| 0 <= a < e.len() && (#[trigger] e[a]).0 == k;
                lemma_as_map_at(e, a);
                assert(result@[a].0 == k);
            }
        }
        let c = sorted_entries(mm);
        assert(sorted_by_key(c) && as_map(c) == mm);
        lemma_sorted_by_key_unique(e, c);
    }
    result
}

/// One step of setting up an animation stage for element `id`, from entries `m` to `m2`:
/// a replaced element takes a copy of the value of its replacement, when that is there; an
/// element taken from the developer's setup, or shown to the user, takes a copy of the
/// developer's value, when there is one.
pub open spec fn init_step<T: StorageElem2>(
    m: Map<usize, StorageInner<T>>,
    id: usize,
    anim: Animation<T>,
    dev: Map<usize, T>,
    m2: Map<usize, StorageInner<T>>,
) -> bool {
    match anim.spec_t() {
        Some(n) => if m.contains_key(n.id_of().0) {
            exists|v: T| cloned(inner_value(m[n.id_of().0]), v) && m2 == m.insert(id, with_value(m[id], v))
        } else {
            m2 == m
        },
        None => if (anim is FromDev || anim is ProvidedToUser) && dev.contains_key(id) && m.contains_key(id) {
            exists|v: T| cloned(dev[id], v) && m2 == m.insert(id, with_value(m[id], v))
        } else {
            m2 == m
        },
    }
}

/// One step of setting up an animation for element `id`, from entries `m` to `m2`: when a
/// replacement is chosen and there, the element takes a copy of its value.
pub open spec fn replace_step<T: StorageElem2>(
    m: Map<usize, StorageInner<T>>,
    id: usize,
    replacement: Option<T::IdWrapper>,
    m2: Map<usize, StorageInner<T>>,
) -> bool {
    match replacement {
        Some(n) => if m.contains_key(n.id_of().0) {
            exists|v: T| cloned(inner_value(m[n.id_of().0]), v) && m2 == m.insert(id, with_value(m[id], v))
        } else {
            m2 == m
        },
        None => m2 == m,
    }
}

/// What an animation stage does with each listed element, by raw identifier.
pub struct StageChanging<T: StorageElem2> {
    entries: BTreeMap<usize, Animation<T>>,
}

impl<T: StorageElem2> StageChanging<T> {
    /// Finitely many elements have an entry.
    pub closed spec fn wf(&self) -> bool {
        self.entries@.dom().finite()
    }

    /// What the stage does with each element.
    pub closed spec fn view_map(&self) -> Map<usize, Animation<T>> {
        self.entries@
    }

    /// The entries, by increasing identifier.
    pub closed spec fn in_order(&self) -> Seq<(usize, Animation<T>)> {
        sorted_entries(self.entries@)
    }

    /// The replacing elements, in the order of the elements they replace.
    pub open spec fn replacements(&self) -> Seq<T::IdWrapper> {
        chosen(self.in_order().map_values(|e: (usize, Animation<T>)| e.1.spec_t()))
    }

    /// A stage that does nothing yet.
    pub fn new() -> (result: Self)
        ensures
            result.wf(),
            result.view_map() == Map::<usize, Animation<T>>::empty(),
    {
        let result = StageChanging { entries: BTreeMap::new() };
        assert(result.view_map() =~= Map::<usize, Animation<T>>::empty());
        result
    }

    /// Sets what the stage does with element `id`.
    pub fn set(&mut self, id: usize, anim: Animation<T>)
        requires
            old(self).wf(),
        ensures
            final(self).wf(),
            final(self).view_map() == old(self).view_map().insert(id, anim),
    {
        self.entries.insert(id, anim);
    }

    /// What the stage does with element `id`, if it says.
    pub fn get(&self, id: usize) -> (result: Option<&Animation<T>>)
        requires
            self.wf(),
        ensures
            match result {
                Some(a) => self.view_map().contains_key(id) && *a == self.view_map()[id],
                None => !self.view_map().contains_key(id),
            },
    {
        self.entries.get(&id)
    }

    /// Removes the replacing elements from the storage, as fields, in the order of the
    /// elements they replace. Each must still be there by its turn.
    pub fn remove(&self, storage: &mut Storage2<T>)
        requires
            old(storage).wf(),
            after_removals(old(storage).elements(), self.replacements()) is Some,
        ensures
            final(storage).wf(),
            final(storage).order() == old(storage).order(),
            Some(final(storage).elements()) == after_removals(old(storage).elements(), self.replacements()),
    {
        let entries = listed(&self.entries);
        let ghost e = derefed(entries@);
        let ghost s = e.map_values(|x: (usize, Animation<T>)| x.1.spec_t());
        let mut i: usize = 0;
        while i < entries.len()
            invariant
                e == derefed(entries@),
                e == self.in_order(),
                s == e.map_values(|x: (usize, Animation<T>)| x.1.spec_t()),
                i <= e.len(),
                storage.wf(),
                storage.order() == old(storage).order(),
                after_removals(old(storage).elements(), chosen(s)) is Some,
                Some(storage.elements()) == after_removals(old(storage).elements(), chosen(s.subrange(0, i as int))),
            decreases e.len() - i,
        {
            proof {
                lemma_removals_of_prefix(old(storage).elements(), s, i + 1);
                assert(s.subrange(0, i + 1).drop_last() =~= s.subrange(0, i as int));
                assert(s.subrange(0, i + 1).last() == e[i as int].1.spec_t());
            }
            let ghost prefix = chosen(s.subrange(0, i as int));
            match entries[i].1.get_t() {
                Some(t) => {
                    proof {
                        assert(chosen(s.subrange(0, i + 1)) == prefix.push(*t));
                        assert(prefix.push(*t).drop_last() =~= prefix);
                        assert(storage.elements().contains_key(t.id_of().0));
                    }
                    storage.remove_as_field(*t);
                    proof {
                        assert(Some(storage.elements()) == after_removals(old(storage).elements(), prefix.push(*t)));
                    }
                },
                None => {
                    proof {
                        assert(chosen(s.subrange(0, i + 1)) == prefix);
                    }
                },
            }
            i = i + 1;
        }
        proof {
            assert(s.subrange(0, i as int) =~= s);
        }
    }

    /// Sets the storage up for the stage, element after element by increasing identifier:
    /// see [`init_step`]. A replaced element whose replacement is there must be there too.
    pub fn init_stage(&self, storage: &mut Storage2<T>, dev_stage: &DevStageChanging<T>)
        requires
            old(storage).wf(),
            forall|i: int| 0 <= i < self.in_order().len() && (#[trigger] self.in_order()[i]).1.spec_t() is Some
                && old(storage).elements().contains_key(self.in_order()[i].1.spec_t().unwrap().id_of().0)
                ==> old(storage).elements().contains_key(self.in_order()[i].0),
        ensures
            final(storage).wf(),
            final(storage).order() == old(storage).order(),
            exists|states: Seq<Map<usize, StorageInner<T>>>| {
                &&& states.len() == self.in_order().len() + 1
                &&& states[0] == old(storage).elements()
                &&& states.last() == final(storage).elements()
                &&& forall|i: int| 0 <= i < self.in_order().len() ==> init_step(
                    #[trigger] states[i],
                    self.in_order()[i].0,
                    self.in_order()[i].1,
                    dev_stage.0@,
                    states[i + 1],
                )
            },
    {
        let entries = listed(&self.entries);
        let ghost e = derefed(entries@);
        let ghost mut states: Seq<Map<usize, StorageInner<T>>> = seq![storage.elements()];
        let mut i: usize = 0;
        while i < entries.len()
            invariant
                e == derefed(entries@),
                e == self.in_order(),
                i <= e.len(),
                storage.wf(),
                storage.order() == old(storage).order(),
                storage.elements().dom() == old(storage).elements().dom(),
                forall|j: int| 0 <= j < self.in_order().len() && (#[trigger] self.in_order()[j]).1.spec_t() is Some
                    && old(storage).elements().contains_key(self.in_order()[j].1.spec_t().unwrap().id_of().0)
                    ==> old(storage).elements().contains_key(self.in_order()[j].0),
                states.len() == i + 1,
                states[0] == old(storage).elements(),
                states.last() == storage.elements(),
                forall|j: int| 0 <= j < i ==> init_step(#[trigger] states[j], e[j].0, e[j].1, dev_stage.0@, states[j + 1]),
            decreases e.len() - i,
        {
            let id = entries[i].0;
            let ghost before = storage.elements();
            let anim = entries[i].1;
            assert(self.in_order()[i as int] == e[i as int]);
            match anim.get_t() {
                Some(t) => {
                    let w = T::IdWrapper::wrap(UniqueId(id));
                    storage.set_id(w, *t);
                    proof {
                        if before.contains_key(t.id_of().0) {
                            let v = choose|v: T| cloned(inner_value(before[t.id_of().0]), v)
                                && storage.elements() == before.insert(w.id_of().0, with_value(before[w.id_of().0], v));
                            assert(cloned(inner_value(before[t.id_of().0]), v) && storage.elements() == before.insert(id, with_value(before[id], v)));
                        }
                    }
                },
                None => {
                    let from_dev = match anim {
                        Animation::FromDev => true,
                        Animation::ProvidedToUser => true,
                        _ => false,
                    };
                    if from_dev {
                        match dev_stage.0.get(&id) {
                            Some(v) => {
                                let value = v.clone();
                                let w = T::IdWrapper::wrap(UniqueId(id));
                                storage.set(w, value);
                                proof {
                                    if before.contains_key(id) {
                                        assert(cloned(dev_stage.0@[id], value) && storage.elements() == before.insert(id, with_value(before[id], value)));
                                    }
                                }
                            },
                            None => {},
                        }
                    }
                },
            }
            proof {
                assert(init_step(before, e[i as int].0, e[i as int].1, dev_stage.0@, storage.elements()));
                states = states.push(storage.elements());
            }
            i = i + 1;
        }
    }
}

impl<T: ErrorCounting> StageChanging<T> {
    /// The problems counted for the replacing elements, each as an anonymous field of
    /// `storage`, added up.
    pub fn errors_count(&self, storage: &Storage2<T>, input: &T::ErrorInput) -> (result: usize)
        requires
            storage.wf(),
            field_errors(storage.elements(), *input, raw_ids(self.replacements())) <= usize::MAX,
        ensures
            result == field_errors(storage.elements(), *input, raw_ids(self.replacements())),
    {
        let ghost m = storage.elements();
        let ghost s = self.in_order().map_values(|e: (usize, Animation<T>)| e.1.spec_t());
        let entries = listed(&self.entries);
        let mut result: usize = 0;
        let mut i: usize = 0;
        proof {
            assert(s.take(0) =~= Seq::<Option<T::IdWrapper>>::empty());
            assert(raw_ids(chosen(s.take(0))) =~= Seq::<usize>::empty());
        }
        while i < entries.len()
            invariant
                storage.wf(),
                m == storage.elements(),
                s == self.in_order().map_values(|e: (usize, Animation<T>)| e.1.spec_t()),
                s.len() == self.in_order().len(),
                derefed(entries@) == self.in_order(),
                i <= s.len(),
                field_errors(m, *input, raw_ids(chosen(s))) <= usize::MAX,
                result == field_errors(m, *input, raw_ids(chosen(s.take(i as int)))),
            decreases s.len() - i,
        {
            proof {
                lemma_chosen_errors_step(m, *input, s, i as int);
            }
            match entries[i].1.get_t() {
                Some(id) => {
                    let r = storage.errors_inline(*id, input);
                    result = result + r;
                },
                None => {},
            }
            i = i + 1;
        }
        assert(s.take(i as int) =~= s);
        result
    }
}

/// What an animation does with each listed element, by raw identifier.
pub struct RealAnimationStageChanging<T: StorageElem2> {
    entries: BTreeMap<usize, RealAnimationPart<T>>,
}

impl<T: StorageElem2> RealAnimationStageChanging<T> {
    /// Finitely many elements have an entry.
    pub closed spec fn wf(&self) -> bool {
        self.entries@.dom().finite()
    }

    /// What the animation does with each element.
    pub closed spec fn view_map(&self) -> Map<usize, RealAnimationPart<T>> {
        self.entries@
    }

    /// The entries, by increasing identifier.
    pub closed spec fn in_order(&self) -> Seq<(usize, RealAnimationPart<T>)> {
        sorted_entries(self.entries@)
    }

    /// The replacing elements, in the order of the elements they replace.
    pub open spec fn replacements(&self) -> Seq<T::IdWrapper> {
        chosen(self.in_order().map_values(|e: (usize, RealAnimationPart<T>)| e.1.spec_t()))
    }

    /// An animation that keeps everything from the previous one.
    pub fn new() -> (result: Self)
        ensures
            result.wf(),
            result.view_map() == Map::<usize, RealAnimationPart<T>>::empty(),
    {
        let result = RealAnimationStageChanging { entries: BTreeMap::new() };
        assert(result.view_map() =~= Map::<usize, RealAnimationPart<T>>::empty());
        result
    }

    /// Sets what the animation does with element `id`.
    pub fn set(&mut self, id: usize, anim: RealAnimationPart<T>)
        requires
            old(self).wf(),
        ensures
            final(self).wf(),
            final(self).view_map() == old(self).view_map().insert(id, anim),
    {
        self.entries.insert(id, anim);
    }

    /// What the animation does with element `id`, if it says.
    pub fn get(&self, id: usize) -> (result: Option<&RealAnimationPart<T>>)
        requires
            self.wf(),
        ensures
            match result {
                Some(a) => self.view_map().contains_key(id) && *a == self.view_map()[id],
                None => !self.view_map().contains_key(id),
            },
    {
        self.entries.get(&id)
    }

    /// Removes the replacing elements from the storage, as fields, in the order of the
    /// elements they replace. Each must still be there by its turn.
    pub fn remove(&self, storage: &mut Storage2<T>)
        requires
            old(storage).wf(),
            after_removals(old(storage).elements(), self.replacements()) is Some,
        ensures
            final(storage).wf(),
            final(storage).order() == old(storage).order(),
            Some(final(storage).elements()) == after_removals(old(storage).elements(), self.replacements()),
    {
        let entries = listed(&self.entries);
        let ghost e = derefed(entries@);
        let ghost s = e.map_values(|x: (usize, RealAnimationPart<T>)| x.1.spec_t());
        let mut i: usize = 0;
        while i < entries.len()
            invariant
                e == derefed(entries@),
                e == self.in_order(),
                s == e.map_values(|x: (usize, RealAnimationPart<T>)| x.1.spec_t()),
                i <= e.len(),
                storage.wf(),
                storage.order() == old(storage).order(),
                after_removals(old(storage).elements(), chosen(s)) is Some,
                Some(storage.elements()) == after_removals(old(storage).elements(), chosen(s.subrange(0, i as int))),
            decreases e.len() - i,
        {
            proof {
                lemma_removals_of_prefix(old(storage).elements(), s, i + 1);
                assert(s.subrange(0, i + 1).drop_last() =~= s.subrange(0, i as int));
                assert(s.subrange(0, i + 1).last() == e[i as int].1.spec_t());
            }
            let ghost prefix = chosen(s.subrange(0, i as int));
            match entries[i].1.get_t() {
                Some(t) => {
                    proof {
                        assert(chosen(s.subrange(0, i + 1)) == prefix.push(*t));
                        assert(prefix.push(*t).drop_last() =~= prefix);
                        assert(storage.elements().contains_key(t.id_of().0));
                    }
                    storage.remove_as_field(*t);
                    proof {
                        assert(Some(storage.elements()) == after_removals(old(storage).elements(), prefix.push(*t)));
                    }
                },
                None => {
                    proof {
                        assert(chosen(s.subrange(0, i + 1)) == prefix);
                    }
                },
            }
            i = i + 1;
        }
        proof {
            assert(s.subrange(0, i as int) =~= s);
        }
    }

    /// Sets the storage up for the animation, element after element by increasing
    /// identifier: a replaced element takes a copy of the value of its replacement, when
    /// that is there. A replaced element whose replacement is there must be there too.
    pub fn init_stage(&self, storage: &mut Storage2<T>)
        requires
            old(storage).wf(),
            forall|i: int| 0 <= i < self.in_order().len() && (#[trigger] self.in_order()[i]).1.spec_t() is Some
                && old(storage).elements().contains_key(self.in_order()[i].1.spec_t().unwrap().id_of().0)
                ==> old(storage).elements().contains_key(self.in_order()[i].0),
        ensures
            final(storage).wf(),
            final(storage).order() == old(storage).order(),
            exists|states: Seq<Map<usize, StorageInner<T>>>| {
                &&& states.len() == self.in_order().len() + 1
                &&& states[0] == old(storage).elements()
                &&& states.last() == final(storage).elements()
                &&& forall|i: int| 0 <= i < self.in_order().len() ==> replace_step(
                    #[trigger] states[i],
                    self.in_order()[i].0,
                    self.in_order()[i].1.spec_t(),
                    states[i + 1],
                )
            },
    {
        let entries = listed(&self.entries);
        let ghost e = derefed(entries@);
        let ghost mut states: Seq<Map<usize, StorageInner<T>>> = seq![storage.elements()];
        let mut i: usize = 0;
        while i < entries.len()
            invariant
                e == derefed(entries@),
                e == self.in_order(),
                i <= e.len(),
                storage.wf(),
                storage.order() == old(storage).order(),
                storage.elements().dom() == old(storage).elements().dom(),
                forall|j: int| 0 <= j < self.in_order().len() && (#[trigger] self.in_order()[j]).1.spec_t() is Some
                    && old(storage).elements().contains_key(self.in_order()[j].1.spec_t().unwrap().id_of().0)
                    ==> old(storage).elements().contains_key(self.in_order()[j].0),
                states.len() == i + 1,
                states[0] == old(storage).elements(),
                states.last() == storage.elements(),
                forall|j: int| 0 <= j < i ==> replace_step(#[trigger] states[j], e[j].0, e[j].1.spec_t(), states[j + 1]),
            decreases e.len() - i,
        {
            let id = entries[i].0;
            let ghost before = storage.elements();
            let part = entries[i].1;
            assert(self.in_order()[i as int] == e[i as int]);
            match part.get_t() {
                Some(t) => {
                    let w = T::IdWrapper::wrap(UniqueId(id));
                    storage.set_id(w, *t);
                    proof {
                        if before.contains_key(t.id_of().0) {
                            let v = choose|v: T| cloned(inner_value(before[t.id_of().0]), v)
                                && storage.elements() == before.insert(w.id_of().0, with_value(before[w.id_of().0], v));
                            assert(cloned(inner_value(before[t.id_of().0]), v) && storage.elements() == before.insert(id, with_value(before[id], v)));
                        }
                    }
                },
                None => {},
            }
            proof {
                assert(replace_step(before, e[i as int].0, e[i as int].1.spec_t(), storage.elements()));
                states = states.push(storage.elements());
            }
            i = i + 1;
        }
    }
}

impl<T: StorageElem2> DevStageChanging<T> {
    /// Takes the current values of the listed elements as the developer's setup.
    pub fn copy(&mut self, storage: &Storage2<T>)
        requires
            storage.wf(),
        ensures
            forall|k: usize| #[trigger] final(self).0@.contains_key(k) <==> storage.order().contains(k),
            forall|k: usize| #[trigger] final(self).0@.contains_key(k) ==> storage.elements().contains_key(k)
                && cloned(inner_value(storage.elements()[k]), final(self).0@[k]),
    {
        self.0.clear();
        let visible = storage.visible_elements();
        let mut i: usize = 0;
        while i < visible.len()
            invariant
                storage.wf(),
                visible@.len() == storage.order().len(),
                forall|j: int| 0 <= j < visible@.len() ==> (#[trigger] visible@[j]).0.id_of().0 == storage.order()[j],
                i <= visible@.len(),
                forall|k: usize| #[trigger] self.0@.contains_key(k) <==> exists|j: int| 0 <= j < i && storage.order()[j] == k,
                forall|k: usize| #[trigger] self.0@.contains_key(k) ==> storage.elements().contains_key(k)
                    && cloned(inner_value(storage.elements()[k]), self.0@[k]),
            decreases visible@.len() - i,
        {
            let id = visible[i].0;
            let k = id.un_wrap().0;
            proof {
                assert(storage.order()[i as int] == k);
                assert(storage.order().contains(k));
                storage.lemma_listed_are_named();
            }
            let value = storage.get_original(id).unwrap().clone();
            self.0.insert(k, value);
            proof {
                assert forall|x: usize| #[trigger] self.0@.contains_key(x) <==> exists|j: int| 0 <= j < i + 1 && storage.order()[j] == x by {
                    if x == k {
                        assert(storage.order()[i as int] == x);
                    }
                }
            }
            i = i + 1;
        }
        proof {
            assert forall|k: usize| #[trigger] self.0@.contains_key(k) <==> storage.order().contains(k) by {
                if storage.order().contains(k) {
                    let j = choose|j: int| 0 <= j < storage.order().len() && storage.order()[j] == k;
                }
            }
        }
    }
}

impl<T: ErrorCounting> RealAnimationStageChanging<T> {
    /// The problems counted for the replacing elements, each as an anonymous field of
    /// `storage`, added up.
    pub fn errors_count(&self, storage: &Storage2<T>, input: &T::ErrorInput) -> (result: usize)
        requires
            storage.wf(),
            field_errors(storage.elements(), *input, raw_ids(self.replacements())) <= usize::MAX,
        ensures
            result == field_errors(storage.elements(), *input, raw_ids(self.replacements())),
    {
        let ghost m = storage.elements();
        let ghost s = self.in_order().map_values(|e: (usize, RealAnimationPart<T>)| e.1.spec_t());
        let entries = listed(&self.entries);
        let mut result: usize = 0;
        let mut i: usize = 0;
        proof {
            assert(s.take(0) =~= Seq::<Option<T::IdWrapper>>::empty());
            assert(raw_ids(chosen(s.take(0))) =~= Seq::<usize>::empty());
        }
        while i < entries.len()
            invariant
                storage.wf(),
                m == storage.elements(),
                s == self.in_order().map_values(|e: (usize, RealAnimationPart<T>)| e.1.spec_t()),
                s.len() == self.in_order().len(),
                derefed(entries@) == self.in_order(),
                i <= s.len(),
                field_errors(m, *input, raw_ids(chosen(s))) <= usize::MAX,
                result == field_errors(m, *input, raw_ids(chosen(s.take(i as int)))),
            decreases s.len() - i,
        {
            proof {
                lemma_chosen_errors_step(m, *input, s, i as int);
            }
            match entries[i].1.get_t() {
                Some(id) => {
                    let r = storage.errors_inline(*id, input);
                    result = result + r;
                },
                None => {},
            }
            i = i + 1;
        }
        assert(s.take(i as int) =~= s);
        result
    }
}

} // verus!
