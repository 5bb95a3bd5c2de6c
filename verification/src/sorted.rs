//! A map over numbers that is walked in ascending order.

use vstd::prelude::*;

verus! {

/// A map from numbers, kept in ascending order.
#[derive(Debug)]
pub struct SortedMap<V> {
    entries: Vec<(u64, V)>,
}

impl<V> View for SortedMap<V> {
    type V = Map<u64, V>;

    closed spec fn view(&self) -> Map<u64, V> {
        Map::new(
            |k: u64| exists|i: int| self.at(i, k),
            |k: u64| self.entries@[choose|i: int| self.at(i, k)].1,
        )
    }
}

impl<V> SortedMap<V> {
    spec fn at(self, i: int, k: u64) -> bool {
        0 <= i < self.entries@.len() && self.entries@[i].0 == k
    }

    /// Numbers stand in strictly ascending order.
    pub closed spec fn wf(self) -> bool {
        forall|i: int, j: int|
            0 <= i < j < self.entries@.len() ==> (#[trigger] self.entries@[i]).0 < (
            #[trigger] self.entries@[j]).0
    }

    /// The entries in ascending order.
    pub closed spec fn items(self) -> Seq<(u64, V)> {
        self.entries@
    }

    /// The map holds exactly the items, and they ascend.
    pub proof fn lemma_items(self)
        requires
            self.wf(),
        ensures
            forall|i: int|
                0 <= i < self.items().len() ==> self@.contains_key((#[trigger] self.items()[i]).0)
                    && self@[self.items()[i].0] == self.items()[i].1,
            forall|k: u64| #[trigger]
                self@.contains_key(k) ==> exists|i: int|
                    0 <= i < self.items().len() && (#[trigger] self.items()[i]).0 == k,
            forall|i: int, j: int|
                0 <= i < j < self.items().len() ==> (#[trigger] self.items()[i]).0 < (
                #[trigger] self.items()[j]).0,
    {
        assert forall|i: int| 0 <= i < self.items().len() implies self@.contains_key(
            (#[trigger] self.items()[i]).0,
        ) && self@[self.items()[i].0] == self.items()[i].1 by {
            let k = self.entries@[i].0;
            assert(self.at(i, k));
            let j = choose|j: int| self.at(j, k);
            assert(self.at(j, k));
            assert(i == j);
        }
        assert forall|k: u64| #[trigger] self@.contains_key(k) implies exists|i: int|
            0 <= i < self.items().len() && (#[trigger] self.items()[i]).0 == k by {
            let i = choose|i: int| self.at(i, k);
            assert(self.at(i, k));
            assert(self.items()[i].0 == k);
        }
    }

    pub fn new() -> (r: Self)
        ensures
            r.wf(),
            r@ == Map::<u64, V>::empty(),
            r.items() == Seq::<(u64, V)>::empty(),
    {
        let r = SortedMap { entries: Vec::new() };
        assert(r@ =~= Map::<u64, V>::empty());
        r
    }

    pub fn len(&self) -> (r: usize)
        ensures
            r == self.items().len(),
    {
        self.entries.len()
    }

    /// The `i`-th entry in ascending order.
    pub fn entry(&self, i: usize) -> (r: &(u64, V))
        requires
            i < self.items().len(),
        ensures
            *r == self.items()[i as int],
    {
        &self.entries[i]
    }

    /// The number of entries below `k`.
    fn rank(&self, k: u64) -> (r: usize)
        requires
            self.wf(),
        ensures
            r <= self.entries@.len(),
            forall|i: int| 0 <= i < r ==> (#[trigger] self.entries@[i]).0 < k,
            forall|i: int| r <= i < self.entries@.len() ==> (#[trigger] self.entries@[i]).0 >= k,
    {
        let n: usize = self.entries.len();
        if n == 0 || self.entries[n - 1].0 < k {
            return n;
        }
        let mut lo: usize = 0;
        let mut hi: usize = n;
        while lo < hi
            invariant
                self.wf(),
                lo <= hi <= n,
                n == self.entries@.len(),
                forall|i: int| 0 <= i < lo ==> (#[trigger] self.entries@[i]).0 < k,
                forall|i: int| hi <= i < n ==> (#[trigger] self.entries@[i]).0 >= k,
            decreases hi - lo,
        {
            let mid: usize = lo + (hi - lo) / 2;
            if self.entries[mid].0 < k {
                lo = mid + 1;
            } else {
                hi = mid;
            }
        }
        lo
    }

    pub fn get(&self, k: u64) -> (r: Option<&V>)
        requires
            self.wf(),
        ensures
            match r {
                Some(v) => self@.contains_key(k) && self@[k] == *v,
                None => !self@.contains_key(k),
            },
    {
        let i: usize = self.rank(k);
        proof {
            self.lemma_items();
        }
        if i < self.entries.len() && self.entries[i].0 == k {
            assert(self.items()[i as int].0 == k);
            Some(&self.entries[i].1)
        } else {
            None
        }
    }

    /// Writing over an entry changes its value alone.
    proof fn lemma_replaced(before: Self, after: Self, i: int, k: u64, v: V)
        requires
            before.wf(),
            0 <= i < before.entries@.len(),
            before.entries@[i].0 == k,
            after.entries@ == before.entries@.update(i, (k, v)),
        ensures
            after.wf(),
            after@ == before@.insert(k, v),
    {
        let s = after.entries@;
        assert forall|a: int, b: int| 0 <= a < b < s.len() implies (#[trigger] s[a]).0 < (
        #[trigger] s[b]).0 by {
            assert(before.entries@[a].0 < before.entries@[b].0);
        }
        after.lemma_items();
        before.lemma_items();
        assert(after.items()[i] == (k, v));
        assert forall|x: u64| after@.contains_key(x) == before@.insert(k, v).contains_key(x) by {
            if after@.contains_key(x) {
                let a = choose|a: int|
                    0 <= a < after.items().len() && (#[trigger] after.items()[a]).0 == x;
                assert(before.items()[a].0 == x);
            }
            if before@.contains_key(x) {
                let a = choose|a: int|
                    0 <= a < before.items().len() && (#[trigger] before.items()[a]).0 == x;
                assert(after.items()[a].0 == x);
            }
        }
        assert forall|x: u64| after@.contains_key(x) implies after@[x] == before@.insert(k, v)[x] by {
            let a = choose|a: int|
                0 <= a < after.items().len() && (#[trigger] after.items()[a]).0 == x;
            assert(before.items()[a].0 == x);
        }
        assert(after@ =~= before@.insert(k, v));
    }

    /// An entry put where it belongs keeps the order.
    proof fn lemma_inserted(before: Self, after: Self, i: int, k: u64, v: V)
        requires
            before.wf(),
            0 <= i <= before.entries@.len(),
            forall|a: int| 0 <= a < i ==> (#[trigger] before.entries@[a]).0 < k,
            forall|a: int|
                i <= a < before.entries@.len() ==> (#[trigger] before.entries@[a]).0 > k,
            after.entries@ == before.entries@.insert(i, (k, v)),
        ensures
            after.wf(),
            after@ == before@.insert(k, v),
    {
        let s = after.entries@;
        let p = before.entries@;
        assert forall|a: int| 0 <= a < s.len() implies #[trigger] s[a] == (if a < i {
            p[a]
        } else if a == i {
            (k, v)
        } else {
            p[a - 1]
        }) by {}
        assert forall|a: int, b: int| 0 <= a < b < s.len() implies (#[trigger] s[a]).0 < (
        #[trigger] s[b]).0 by {
            if a < i && b < i {
                assert(p[a].0 < p[b].0);
            } else if a < i && b > i {
                assert(p[a].0 < k && k < p[b - 1].0);
            } else if a > i {
                assert(p[a - 1].0 < p[b - 1].0);
            }
        }
        after.lemma_items();
        before.lemma_items();
        assert(after.items()[i] == (k, v));
        assert forall|x: u64| after@.contains_key(x) == before@.insert(k, v).contains_key(x) by {
            if after@.contains_key(x) && x != k {
                let a = choose|a: int|
                    0 <= a < after.items().len() && (#[trigger] after.items()[a]).0 == x;
                if a < i {
                    assert(before.items()[a].0 == x);
                } else {
                    assert(before.items()[a - 1].0 == x);
                }
            }
            if before@.contains_key(x) {
                let a = choose|a: int|
                    0 <= a < before.items().len() && (#[trigger] before.items()[a]).0 == x;
                if a < i {
                    assert(after.items()[a].0 == x);
                } else {
                    assert(after.items()[a + 1].0 == x);
                }
            }
        }
        assert forall|x: u64| after@.contains_key(x) implies after@[x] == before@.insert(k, v)[x] by {
            let a = choose|a: int|
                0 <= a < after.items().len() && (#[trigger] after.items()[a]).0 == x;
            if a < i {
                assert(before.items()[a].0 == x);
            } else if a > i {
                assert(before.items()[a - 1].0 == x);
            }
        }
        assert(after@ =~= before@.insert(k, v));
    }

    /// Give `k` the value `v`, in place of the one it had.
    pub fn insert(&mut self, k: u64, v: V)
        requires
            old(self).wf(),
        ensures
            final(self).wf(),
            final(self)@ == old(self)@.insert(k, v),
    {
        let ghost before = *self;
        let i: usize = self.rank(k);
        if i < self.entries.len() && self.entries[i].0 == k {
            self.entries[i].1 = v;
            proof {
                assert(self.entries@ =~= before.entries@.update(i as int, (k, v)));
                Self::lemma_replaced(before, *self, i as int, k, v);
            }
        } else {
            self.entries.insert(i, (k, v));
            proof {
                assert forall|a: int| i <= a < before.entries@.len() implies (
                #[trigger] before.entries@[a]).0 > k by {
                    if a > i {
                        assert(before.entries@[i as int].0 < before.entries@[a].0);
                    }
                }
                Self::lemma_inserted(before, *self, i as int, k, v);
            }
        }
    }
}

} // verus!
