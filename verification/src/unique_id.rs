use std::collections::VecDeque;
use vstd::prelude::*;

verus! {

/// An identifier handed out by [`UniqueIds`].
#[derive(Clone, Copy, Debug, PartialEq, Eq, Structural, Hash)]
pub struct UniqueId(pub usize);

/// A pool of identifiers: hands out the smallest identifier not in use and takes back
/// identifiers that are no longer needed.
///
/// `available` holds, in increasing order, the freed identifiers below `max`; every
/// identifier at or above `max` is free as well. `max` is kept as small as possible, so
/// that `max - 1` is always in use when `max > 0`.
#[derive(Clone, Debug, PartialEq, Eq)]
pub struct UniqueIds {
    available: VecDeque<UniqueId>,
    max: usize,
}

impl UniqueIds {
    /// The freed identifiers below `max`, as plain numbers.
    pub closed spec fn available_seq(&self) -> Seq<usize> {
        self.available@.map_values(|x: UniqueId| x.0)
    }

    /// One more than the largest identifier in use, or zero.
    pub closed spec fn spec_max(&self) -> usize {
        self.max
    }

    /// The freed list is strictly increasing and lies below `max`.
    closed spec fn sorted_below_max(&self) -> bool {
        let a = self.available_seq();
        &&& forall|i: int, j: int| 0 <= i < j < a.len() ==> a[i] < a[j]
        &&& forall|i: int| 0 <= i < a.len() ==> a[i] < self.max
    }

    /// Well-formedness: the freed list is strictly increasing, lies below `max`, and
    /// `max - 1` is in use.
    pub closed spec fn wf(&self) -> bool {
        let a = self.available_seq();
        &&& self.sorted_below_max()
        &&& a.len() > 0 ==> a[a.len() - 1] + 1 < self.max
    }

    /// Whether identifier `i` is currently handed out.
    pub closed spec fn in_use(&self, i: usize) -> bool {
        i < self.max && !self.available_seq().contains(i)
    }

    /// The set of identifiers currently handed out.
    pub open spec fn allocated(&self) -> Set<usize> {
        Set::new(|i: usize| self.in_use(i))
    }

    /// Whether some identifier below `usize::MAX` is still free, so that
    /// [`UniqueIds::get_unique`] can hand one out.
    pub open spec fn can_allocate(&self) -> bool {
        self.available_seq().len() > 0 || self.spec_max() < usize::MAX
    }

    /// An empty pool: no identifier in use, nothing freed, `max` zero.
    pub fn new() -> (ids: Self)
        ensures
            ids.wf(),
            ids.allocated() == Set::<usize>::empty(),
            ids.available_seq() == Seq::<usize>::empty(),
            ids.spec_max() == 0,
            ids.can_allocate(),
    {
        let ids = UniqueIds { available: VecDeque::new(), max: 0 };
        assert(ids.allocated() =~= Set::<usize>::empty());
        assert(ids.available_seq() =~= Seq::<usize>::empty());
        ids
    }

    /// What a well-formed pool stores, in terms of the identifiers in use: every identifier
    /// in use lies below `max`; `max - 1` is in use when `max > 0`, so `max` is zero when
    /// none is and one more than the largest one otherwise; the freed list holds, in
    /// increasing order, exactly the identifiers below `max` that are not in use.
    pub proof fn lemma_state_of_allocated(&self)
        requires
            self.wf(),
        ensures
            forall|k: usize| #[trigger] self.allocated().contains(k) ==> k < self.spec_max(),
            self.spec_max() > 0 ==> self.allocated().contains((self.spec_max() - 1) as usize),
            forall|i: int, j: int| 0 <= i < j < self.available_seq().len() ==> self.available_seq()[i] < self.available_seq()[j],
            forall|k: usize| #[trigger] self.available_seq().contains(k) <==> (k < self.spec_max() && !self.allocated().contains(k)),
    {
        let s = self.available_seq();
        if self.max > 0 && s.contains((self.max - 1) as usize) {
            let k = choose|k: int| 0 <= k < s.len() && s[k] == self.max - 1;
            if k < s.len() - 1 {
                assert(s[k] < s[s.len() - 1]);
            }
        }
        assert forall|k: usize| #[trigger] s.contains(k) implies k < self.max by {
            let i = choose|i: int| 0 <= i < s.len() && s[i] == k;
        }
    }

    /// A pool with a free identifier below `usize::MAX` can hand one out.
    pub proof fn lemma_free_id_can_allocate(&self, k: usize)
        requires
            self.wf(),
            k < usize::MAX,
            !self.allocated().contains(k),
        ensures
            self.can_allocate(),
    {
        if self.available_seq().len() == 0 {
            assert(!self.available_seq().contains(k));
        }
    }

    /// A pool with exactly the identifiers `ids` in use.
    pub fn with_allocated(ids: &Vec<usize>) -> (result: Self)
        requires
            forall|i: int| 0 <= i < ids@.len() ==> #[trigger] ids@[i] < usize::MAX,
        ensures
            result.wf(),
            result.allocated() == ids@.to_set(),
    {
        let mut top: usize = 0;
        let mut i: usize = 0;
        while i < ids.len()
            invariant
                forall|j: int| 0 <= j < ids@.len() ==> #[trigger] ids@[j] < usize::MAX,
                i <= ids@.len(),
                forall|j: int| 0 <= j < i ==> #[trigger] ids@[j] < top,
            decreases ids@.len() - i,
        {
            if ids[i] >= top {
                top = ids[i] + 1;
            }
            i = i + 1;
        }
        let mut pool = UniqueIds::new();
        let mut n: usize = 0;
        while n < top
            invariant
                pool.wf(),
                n <= top,
                pool.allocated() == Set::new(|x: usize| x < n),
            decreases top - n,
        {
            proof {
                pool.lemma_free_id_can_allocate(n);
            }
            let got = pool.get_unique();
            proof {
                if got.0 != n {
                    if got.0 < n {
                        assert(Set::new(|x: usize| x < n).contains(got.0));
                    } else {
                        assert(!pool.allocated().contains(n));
                    }
                }
                assert(pool.allocated() =~= Set::new(|x: usize| x < n + 1));
            }
            n = n + 1;
        }
        let mut k: usize = 0;
        while k < top
            invariant
                pool.wf(),
                k <= top,
                forall|j: int| 0 <= j < ids@.len() ==> #[trigger] ids@[j] < top,
                pool.allocated() == Set::new(|x: usize| x < top && (x >= k || ids@.contains(x))),
            decreases top - k,
        {
            let mut found = false;
            let mut j: usize = 0;
            while j < ids.len()
                invariant
                    j <= ids@.len(),
                    found <==> exists|a: int| 0 <= a < j && ids@[a] == k,
                decreases ids@.len() - j,
            {
                if ids[j] == k {
                    found = true;
                }
                j = j + 1;
            }
            if !found {
                pool.remove_existing(UniqueId(k));
            }
            proof {
                assert(pool.allocated() =~= Set::new(|x: usize| x < top && (x >= k + 1 || ids@.contains(x))));
            }
            k = k + 1;
        }
        proof {
            assert(pool.allocated() =~= ids@.to_set()) by {
                assert forall|x: usize| ids@.to_set().contains(x) implies x < top by {
                    let a = choose|a: int| 0 <= a < ids@.len() && ids@[a] == x;
                }
            }
        }
        pool
    }

    /// Whether some identifier below `usize::MAX` is still free.
    pub fn can_get(&self) -> (result: bool)
        ensures
            result == self.can_allocate(),
    {
        self.available.len() > 0 || self.max < usize::MAX
    }

    /// Hands out the smallest identifier that is not in use.
    pub fn get_unique(&mut self) -> (result: UniqueId)
        requires
            old(self).wf(),
            old(self).can_allocate(),
        ensures
            final(self).wf(),
            !old(self).allocated().contains(result.0),
            forall|i: usize| i < result.0 ==> old(self).allocated().contains(i),
            final(self).allocated() == old(self).allocated().insert(result.0),
    {
        if let Some(result) = self.available.pop_front() {
            assert(self.available_seq() =~= old(self).available_seq().subrange(1, old(self).available_seq().len() as int));
            assert(old(self).available_seq()[0] == result.0);
            assert(old(self).available_seq().contains(result.0));
            assert(self.allocated() =~= old(self).allocated().insert(result.0)) by {
                let a = old(self).available_seq();
                assert(a[0] == result.0);
                assert forall|i: usize| #[trigger] self.available_seq().contains(i) <==> (a.contains(i) && i != result.0) by {
                    if a.contains(i) && i != result.0 {
                        let k = choose|k: int| 0 <= k < a.len() && a[k] == i;
                        assert(self.available_seq()[k - 1] == i);
                    }
                    if self.available_seq().contains(i) {
                        let k = choose|k: int| 0 <= k < self.available_seq().len() && self.available_seq()[k] == i;
                        assert(a[k + 1] == i);
                        assert(a[0] < a[k + 1]);
                    }
                }
            }
            assert forall|i: usize| i < result.0 implies old(self).allocated().contains(i) by {
                let a = old(self).available_seq();
                if a.contains(i) {
                    let k = choose|k: int| 0 <= k < a.len() && a[k] == i;
                    if k > 0 {
                        assert(a[0] < a[k]);
                    }
                }
            }
            result
        } else {
            let result = UniqueId(self.max);
            self.max = self.max + 1;
            assert(self.available_seq() =~= old(self).available_seq());
            assert(self.allocated() =~= old(self).allocated().insert(result.0));
            result
        }
    }
}

impl UniqueIds {
    /// Whether the largest freed identifier is `max - 1`.
    fn largest_free_is_top(&self) -> (b: bool)
        requires
            self.sorted_below_max(),
        ensures
            b == (self.available_seq().len() > 0
                && self.available_seq()[self.available_seq().len() - 1] + 1 == self.max),
    {
        let n = self.available.len();
        if n == 0 {
            false
        } else {
            let last = self.available[n - 1].0;
            assert(last == self.available_seq()[n - 1]);
            last + 1 == self.max
        }
    }

    /// Takes back an identifier that is in use, so that it can be handed out again.
    pub fn remove_existing(&mut self, id: UniqueId)
        requires
            old(self).wf(),
            old(self).allocated().contains(id.0),
        ensures
            final(self).wf(),
            final(self).allocated() == old(self).allocated().remove(id.0),
    {
        let ghost target = old(self).allocated().remove(id.0);
        // Find where `id` goes to keep the freed list increasing.
        let mut pos: usize = 0;
        while pos < self.available.len() && self.available[pos].0 < id.0
            invariant
                self.wf(),
                *self == *old(self),
                pos <= self.available_seq().len(),
                forall|k: int| 0 <= k < pos ==> self.available_seq()[k] < id.0,
            decreases self.available_seq().len() - pos,
        {
            pos = pos + 1;
        }
        let ghost a0 = self.available_seq();
        assert(!a0.contains(id.0));
        assert forall|k: int| pos <= k < a0.len() implies a0[k] > id.0 by {
            assert(a0[pos as int] >= id.0);
            if k > pos {
                assert(a0[pos as int] < a0[k]);
            }
            assert(a0[k] != id.0);
        }
        self.available.insert(pos, id);
        assert(self.available_seq() =~= a0.insert(pos as int, id.0));
        assert(self.allocated() =~= target) by {
            assert forall|i: usize| #[trigger] self.available_seq().contains(i) <==> (a0.contains(i) || i == id.0) by {
                let b = self.available_seq();
                if a0.contains(i) {
                    let k = choose|k: int| 0 <= k < a0.len() && a0[k] == i;
                    if k < pos {
                        assert(b[k] == i);
                    } else {
                        assert(b[k + 1] == i);
                    }
                }
                if i == id.0 {
                    assert(b[pos as int] == i);
                }
                if b.contains(i) {
                    let k = choose|k: int| 0 <= k < b.len() && b[k] == i;
                    if k < pos {
                        assert(a0[k] == i);
                    } else if k > pos {
                        assert(a0[k - 1] == i);
                    }
                }
            }
        }
        // Lower `max` while the largest identifiers below it are free.
        while self.largest_free_is_top()
            invariant
                self.sorted_below_max(),
                self.allocated() == target,
            decreases self.available_seq().len(),
        {
            let ghost before = *self;
            self.max = self.max - 1;
            let _ = self.available.pop_back();
            let ghost b = before.available_seq();
            assert(self.available_seq() =~= b.subrange(0, b.len() - 1));
            assert forall|k: int| 0 <= k < self.available_seq().len() implies self.available_seq()[k] < self.max by {
                assert(b[k] < b[b.len() - 1]);
            }
            assert(self.allocated() =~= target) by {
                assert forall|i: usize| #[trigger] self.in_use(i) <==> before.in_use(i) by {
                    if i < self.max && self.available_seq().contains(i) {
                        let k = choose|k: int| 0 <= k < self.available_seq().len() && self.available_seq()[k] == i;
                        assert(b[k] == i);
                    }
                    if i < self.max && b.contains(i) {
                        let k = choose|k: int| 0 <= k < b.len() && b[k] == i;
                        assert(k != b.len() - 1);
                        assert(self.available_seq()[k] == i);
                    }
                    if i == self.max {
                        assert(b[b.len() - 1] == i);
                    }
                }
            }
        }
    }
}

impl Default for UniqueIds {
    /// An empty pool, as [`UniqueIds::new`].
    fn default() -> (ids: Self)
        ensures
            ids.wf(),
            ids.allocated() == Set::<usize>::empty(),
            ids.available_seq() == Seq::<usize>::empty(),
            ids.spec_max() == 0,
            ids.can_allocate(),
    {
        UniqueIds::new()
    }
}

impl UniqueIds {
    /// The freed identifiers below [`UniqueIds::max`], in increasing order.
    pub fn available(&self) -> (result: Vec<UniqueId>)
        ensures
            result@.map_values(|x: UniqueId| x.0) == self.available_seq(),
    {
        let mut result: Vec<UniqueId> = Vec::new();
        let mut i: usize = 0;
        while i < self.available.len()
            invariant
                i <= self.available@.len(),
                result@ == self.available@.subrange(0, i as int),
            decreases self.available@.len() - i,
        {
            result.push(self.available[i]);
            i = i + 1;
        }
        assert(result@ =~= self.available@);
        assert(result@.map_values(|x: UniqueId| x.0) =~= self.available_seq());
        result
    }

    /// One more than the largest identifier in use, or zero when none is.
    pub fn max(&self) -> (result: usize)
        ensures
            result == self.spec_max(),
    {
        self.max
    }

    /// The freed list as plain numbers and `max` together.
    pub closed spec fn state(&self) -> (Seq<usize>, usize) {
        (self.available_seq(), self.max)
    }

    /// The internal state of a well-formed pool is determined by the set of identifiers in
    /// use: two pools that hand out the same identifiers store the same freed list and `max`.
    pub proof fn lemma_state_determined_by_allocated(a: UniqueIds, b: UniqueIds)
        requires
            a.wf(),
            b.wf(),
            a.allocated() == b.allocated(),
        ensures
            a.state() == b.state(),
    {
        assert forall|x: UniqueIds| #[trigger] x.wf() && x.max > 0 implies x.in_use((x.max - 1) as usize) by {
            let s = x.available_seq();
            if s.contains((x.max - 1) as usize) {
                let k = choose|k: int| 0 <= k < s.len() && s[k] == x.max - 1;
                if k < s.len() - 1 {
                    assert(s[k] < s[s.len() - 1]);
                }
            }
        }
        if a.max < b.max {
            assert(b.allocated().contains((b.max - 1) as usize));
            assert(!a.allocated().contains((b.max - 1) as usize));
        }
        if b.max < a.max {
            assert(a.allocated().contains((a.max - 1) as usize));
            assert(!b.allocated().contains((a.max - 1) as usize));
        }
        assert(a.max == b.max);
        let sa = a.available_seq();
        let sb = b.available_seq();
        assert forall|x: usize| sa.contains(x) <==> sb.contains(x) by {
            if sa.contains(x) {
                let k = choose|k: int| 0 <= k < sa.len() && sa[k] == x;
                assert(x < a.max);
                assert(!a.allocated().contains(x));
            }
            if sb.contains(x) {
                let k = choose|k: int| 0 <= k < sb.len() && sb[k] == x;
                assert(x < b.max);
                assert(!b.allocated().contains(x));
            }
        }
        lemma_increasing_same_elements(sa, sb);
    }

    /// Every identifier in use lies below `max`.
    pub proof fn lemma_allocated_below_max(&self)
        ensures
            forall|k: usize| #[trigger] self.allocated().contains(k) ==> k < self.spec_max(),
    {
    }

    /// Only finitely many identifiers are ever in use.
    pub proof fn lemma_allocated_finite(&self)
        ensures
            self.allocated().finite(),
    {
        broadcast use vstd::set_lib::range_set_properties;
        let r = Set::<usize>::range(0, self.max);
        assert(r.finite());
        assert(self.allocated().subset_of(r));
        vstd::set_lib::lemma_set_subset_finite(r, self.allocated());
    }

    /// Handing out an identifier and taking the same identifier back leaves the pool as it
    /// was before.
    pub proof fn lemma_get_then_remove_restores(s0: UniqueIds, s1: UniqueIds, s2: UniqueIds, id: usize)
        requires
            s0.wf(),
            s1.wf(),
            s2.wf(),
            !s0.allocated().contains(id),
            s1.allocated() == s0.allocated().insert(id),
            s2.allocated() == s1.allocated().remove(id),
        ensures
            s2.state() == s0.state(),
    {
        assert(s2.allocated() =~= s0.allocated());
        Self::lemma_state_determined_by_allocated(s2, s0);
    }
}

/// Two strictly increasing sequences that hold the same numbers are equal.
pub proof fn lemma_increasing_same_elements(a: Seq<usize>, b: Seq<usize>)
    requires
        forall|i: int, j: int| 0 <= i < j < a.len() ==> a[i] < a[j],
        forall|i: int, j: int| 0 <= i < j < b.len() ==> b[i] < b[j],
        forall|x: usize| a.contains(x) <==> b.contains(x),
    ensures
        a == b,
    decreases a.len() + b.len(),
{
    if a.len() == 0 {
        if b.len() > 0 {
            assert(b.contains(b[0]));
        }
        assert(a =~= b);
    } else if b.len() == 0 {
        assert(a.contains(a[0]));
    } else {
        let la = a[a.len() - 1];
        let lb = b[b.len() - 1];
        assert(a.contains(la));
        assert(b.contains(lb));
        let ka = choose|k: int| 0 <= k < a.len() && a[k] == lb;
        let kb = choose|k: int| 0 <= k < b.len() && b[k] == la;
        if ka < a.len() - 1 {
            assert(a[ka] < la);
        }
        if kb < b.len() - 1 {
            assert(b[kb] < lb);
        }
        assert(la == lb);
        let a2 = a.drop_last();
        let b2 = b.drop_last();
        assert forall|x: usize| a2.contains(x) <==> b2.contains(x) by {
            if a2.contains(x) {
                let k = choose|k: int| 0 <= k < a2.len() && a2[k] == x;
                assert(a[k] < la);
                assert(b.contains(x));
                let j = choose|j: int| 0 <= j < b.len() && b[j] == x;
                assert(j != b.len() - 1);
                assert(b2[j] == x);
            }
            if b2.contains(x) {
                let k = choose|k: int| 0 <= k < b2.len() && b2[k] == x;
                assert(b[k] < lb);
                assert(a.contains(x));
                let j = choose|j: int| 0 <= j < a.len() && a[j] == x;
                assert(j != a.len() - 1);
                assert(a2[j] == x);
            }
        }
        lemma_increasing_same_elements(a2, b2);
        assert(a =~= a2.push(la));
        assert(b =~= b2.push(lb));
    }
}

} // verus!
