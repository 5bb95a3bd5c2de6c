//! A map over keys that are told apart by their views.

use crate::model::{self, GroupKey, GroupView};
use vstd::prelude::*;

verus! {

/// A key whose values can be told apart.
pub trait Key: View + Sized {
    /// Whether two keys have one view.
    fn same_key(&self, other: &Self) -> (r: bool)
        ensures
            r == (self@ == other@),
    ;
}

/// A test on keys.
pub trait KeyTest<K: Key> {
    /// Whether a key with view `k` meets the test.
    spec fn meets(self, k: K::V) -> bool;

    fn test(&self, k: &K) -> (r: bool)
        ensures
            r == self.meets(k@),
    ;
}

/// A map that keeps its entries in the order in which their keys came.
#[derive(Debug)]
#[verifier::reject_recursive_types(K)]
pub struct KeyedMap<K: Key, V> {
    entries: Vec<(K, V)>,
}

impl<K: Key, V> View for KeyedMap<K, V> {
    type V = Map<K::V, V>;

    closed spec fn view(&self) -> Map<K::V, V> {
        Map::new(
            |k: K::V| exists|i: int| self.at(i, k),
            |k: K::V| self.entries@[choose|i: int| self.at(i, k)].1,
        )
    }
}

impl<K: Key, V> KeyedMap<K, V> {
    spec fn at(self, i: int, k: K::V) -> bool {
        0 <= i < self.entries@.len() && self.entries@[i].0@ == k
    }

    /// No key stands twice.
    pub closed spec fn wf(self) -> bool {
        forall|i: int, j: int|
            0 <= i < j < self.entries@.len() ==> (#[trigger] self.entries@[i]).0@ != (
            #[trigger] self.entries@[j]).0@
    }

    /// The entries in the order in which their keys came.
    pub closed spec fn items(self) -> Seq<(K, V)> {
        self.entries@
    }

    proof fn lemma_at(self, i: int)
        requires
            self.wf(),
            0 <= i < self.entries@.len(),
        ensures
            self@.contains_key(self.entries@[i].0@),
            self@[self.entries@[i].0@] == self.entries@[i].1,
    {
        let k = self.entries@[i].0@;
        assert(self.at(i, k));
        let j = choose|j: int| self.at(j, k);
        assert(self.at(j, k));
        assert(i == j);
    }

    /// The map holds exactly the items.
    pub proof fn lemma_items(self)
        requires
            self.wf(),
        ensures
            forall|i: int|
                0 <= i < self.items().len() ==> self@.contains_key((#[trigger] self.items()[i]).0@)
                    && self@[self.items()[i].0@] == self.items()[i].1,
            forall|k: K::V| #[trigger]
                self@.contains_key(k) ==> exists|i: int|
                    0 <= i < self.items().len() && (#[trigger] self.items()[i]).0@ == k,
            forall|i: int, j: int|
                0 <= i < j < self.items().len() ==> (#[trigger] self.items()[i]).0@ != (
                #[trigger] self.items()[j]).0@,
            self@.dom().finite(),
    {
        assert forall|i: int| 0 <= i < self.items().len() implies self@.contains_key(
            (#[trigger] self.items()[i]).0@,
        ) && self@[self.items()[i].0@] == self.items()[i].1 by {
            self.lemma_at(i);
        }
        assert forall|k: K::V| #[trigger] self@.contains_key(k) implies exists|i: int|
            0 <= i < self.items().len() && (#[trigger] self.items()[i]).0@ == k by {
            let i = choose|i: int| self.at(i, k);
            assert(self.at(i, k));
            assert(self.items()[i].0@ == k);
        }
        let keys = Seq::new(self.items().len(), |i: int| self.items()[i].0@);
        assert forall|k: K::V| #[trigger] self@.dom().contains(k) implies keys.to_set().contains(
            k,
        ) by {
            let i = choose|i: int|
                0 <= i < self.items().len() && (#[trigger] self.items()[i]).0@ == k;
            assert(keys[i] == k);
        }
        vstd::seq_lib::seq_to_set_is_finite(keys);
        vstd::set_lib::lemma_len_subset(self@.dom(), keys.to_set());
    }

    pub fn new() -> (r: Self)
        ensures
            r.wf(),
            r@ == Map::<K::V, V>::empty(),
            r.items() == Seq::<(K, V)>::empty(),
    {
        let r = KeyedMap { entries: Vec::new() };
        assert(r@ =~= Map::<K::V, V>::empty());
        r
    }

    pub fn len(&self) -> (r: usize)
        ensures
            r == self.items().len(),
    {
        self.entries.len()
    }

    /// The entry that came `i`-th.
    pub fn entry(&self, i: usize) -> (r: &(K, V))
        requires
            i < self.items().len(),
        ensures
            *r == self.items()[i as int],
    {
        &self.entries[i]
    }

    fn position(&self, key: &K) -> (r: Option<usize>)
        requires
            self.wf(),
        ensures
            match r {
                Some(i) => i < self.entries@.len() && self.entries@[i as int].0@ == key@
                    && self@.contains_key(key@) && self@[key@] == self.entries@[i as int].1,
                None => !self@.contains_key(key@) && forall|i: int|
                    0 <= i < self.entries@.len() ==> (#[trigger] self.entries@[i]).0@ != key@,
            },
    {
        let mut i: usize = 0;
        while i < self.entries.len()
            invariant
                i <= self.entries@.len(),
                self.wf(),
                forall|k: int| 0 <= k < i ==> (#[trigger] self.entries@[k]).0@ != key@,
            decreases self.entries@.len() - i,
        {
            if self.entries[i].0.same_key(key) {
                proof {
                    self.lemma_at(i as int);
                }
                return Some(i);
            }
            i += 1;
        }
        assert(forall|j: int| !self.at(j, key@));
        None
    }

    pub fn get(&self, key: &K) -> (r: Option<&V>)
        requires
            self.wf(),
        ensures
            match r {
                Some(v) => self@.contains_key(key@) && self@[key@] == *v,
                None => !self@.contains_key(key@),
            },
    {
        match self.position(key) {
            Some(i) => Some(&self.entries[i].1),
            None => None,
        }
    }

    pub fn contains(&self, key: &K) -> (r: bool)
        requires
            self.wf(),
        ensures
            r == self@.contains_key(key@),
    {
        match self.position(key) {
            Some(i) => true,
            None => false,
        }
    }

    /// Give `key` the value `value`, in place of the one it had.
    pub fn insert(&mut self, key: K, value: V)
        requires
            old(self).wf(),
        ensures
            final(self).wf(),
            final(self)@ == old(self)@.insert(key@, value),
            !old(self)@.contains_key(key@) ==> final(self).items() == old(self).items().push(
                (key, value),
            ),
            old(self)@.contains_key(key@) ==> {
                &&& final(self).items().len() == old(self).items().len()
                &&& forall|i: int|
                    0 <= i < old(self).items().len() ==> (#[trigger] final(self).items()[i]).0
                        == old(self).items()[i].0
            },
    {
        let ghost before = *self;
        match self.position(&key) {
            Some(i) => {
                self.entries[i].1 = value;
                assert(self.entries@ =~= before.entries@.update(
                    i as int,
                    (before.entries@[i as int].0, value),
                ));
                assert(self.wf());
                proof {
                    self.lemma_items();
                    before.lemma_items();
                    assert forall|k: K::V| self@.contains_key(k) == before@.insert(
                        key@,
                        value,
                    ).contains_key(k) by {
                        if self@.contains_key(k) {
                            let j = choose|j: int|
                                0 <= j < self.items().len() && (#[trigger] self.items()[j]).0@ == k;
                            assert(before.items()[j].0@ == k);
                        }
                        if before@.contains_key(k) {
                            let j = choose|j: int|
                                0 <= j < before.items().len() && (#[trigger] before.items()[j]).0@
                                    == k;
                            assert(self.items()[j].0@ == k);
                        }
                    }
                    assert forall|k: K::V| self@.contains_key(k) implies self@[k] == before@.insert(
                        key@,
                        value,
                    )[k] by {
                        let j = choose|j: int|
                            0 <= j < self.items().len() && (#[trigger] self.items()[j]).0@ == k;
                        assert(before.items()[j].0@ == k);
                        assert(self.items()[i as int].0@ == key@);
                    }
                    assert(self@ =~= before@.insert(key@, value));
                }
            },
            None => {
                self.entries.push((key, value));
                assert(self.wf());
                proof {
                    let n = before.entries@.len() as int;
                    self.lemma_items();
                    before.lemma_items();
                    assert(self.items()[n] == (key, value));
                    assert forall|k: K::V| self@.contains_key(k) == before@.insert(
                        key@,
                        value,
                    ).contains_key(k) by {
                        if self@.contains_key(k) {
                            let j = choose|j: int|
                                0 <= j < self.items().len() && (#[trigger] self.items()[j]).0@ == k;
                            if j < n {
                                assert(before.items()[j].0@ == k);
                            }
                        }
                        if before@.contains_key(k) {
                            let j = choose|j: int|
                                0 <= j < before.items().len() && (#[trigger] before.items()[j]).0@
                                    == k;
                            assert(self.items()[j].0@ == k);
                        }
                    }
                    assert forall|k: K::V| self@.contains_key(k) implies self@[k] == before@.insert(
                        key@,
                        value,
                    )[k] by {
                        let j = choose|j: int|
                            0 <= j < self.items().len() && (#[trigger] self.items()[j]).0@ == k;
                        if j < n {
                            assert(before.items()[j].0@ == k);
                        }
                    }
                    assert(self@ =~= before@.insert(key@, value));
                }
            },
        }
    }

    fn remove_at(&mut self, i: usize) -> (r: (K, V))
        requires
            old(self).wf(),
            i < old(self).entries@.len(),
        ensures
            final(self).wf(),
            r == old(self).entries@[i as int],
            final(self).entries@ == old(self).entries@.remove(i as int),
            final(self)@ == old(self)@.remove(r.0@),
    {
        let ghost before = *self;
        let removed = self.entries.remove(i);
        proof {
            let after = self.entries@;
            assert(after =~= before.entries@.remove(i as int));
            assert(forall|a: int|
                0 <= a < after.len() ==> #[trigger] after[a] == before.entries@[if a < i {
                    a
                } else {
                    a + 1
                }]);
            assert(self.wf());
            self.lemma_items();
            before.lemma_items();
            let gone = removed.0@;
            assert(before.items()[i as int].0@ == gone);
            assert forall|k: K::V| self@.contains_key(k) == before@.remove(gone).contains_key(
                k,
            ) by {
                if self@.contains_key(k) {
                    let j = choose|j: int|
                        0 <= j < self.items().len() && (#[trigger] self.items()[j]).0@ == k;
                    let b = if j < i {
                        j
                    } else {
                        j + 1
                    };
                    assert(before.items()[b].0@ == k);
                    assert(b != i);
                }
                if before@.contains_key(k) && k != gone {
                    let j = choose|j: int|
                        0 <= j < before.items().len() && (#[trigger] before.items()[j]).0@ == k;
                    let a = if j < i {
                        j
                    } else {
                        j - 1
                    };
                    assert(self.items()[a].0@ == k);
                }
            }
            assert forall|k: K::V| self@.contains_key(k) implies self@[k] == before@.remove(
                gone,
            )[k] by {
                let j = choose|j: int|
                    0 <= j < self.items().len() && (#[trigger] self.items()[j]).0@ == k;
                let b = if j < i {
                    j
                } else {
                    j + 1
                };
                assert(before.items()[b].0@ == k);
            }
            assert(self@ =~= before@.remove(gone));
        }
        removed
    }

    /// Take `key` out, with its value.
    pub fn remove(&mut self, key: &K) -> (r: Option<V>)
        requires
            old(self).wf(),
        ensures
            final(self).wf(),
            final(self)@ == old(self)@.remove(key@),
            r == (if old(self)@.contains_key(key@) {
                Some(old(self)@[key@])
            } else {
                None
            }),
    {
        match self.position(key) {
            Some(i) => {
                let (k, v) = self.remove_at(i);
                Some(v)
            },
            None => {
                assert(self@ =~= self@.remove(key@));
                None
            },
        }
    }

    /// Take out every key that meets `test`.
    pub fn remove_matching<T: KeyTest<K>>(&mut self, test: &T)
        requires
            old(self).wf(),
        ensures
            final(self).wf(),
            final(self)@ == old(self)@.remove_keys(Set::new(|k: K::V| test.meets(k))),
    {
        let mut i: usize = 0;
        let ghost before = self@;
        let ghost dropped = Set::new(|k: K::V| test.meets(k));
        while i < self.entries.len()
            invariant
                self.wf(),
                i <= self.entries@.len(),
                dropped == Set::new(|k: K::V| test.meets(k)),
                before == old(self)@,
                forall|j: int| 0 <= j < i ==> !test.meets((#[trigger] self.entries@[j]).0@),
                forall|k: K::V|
                    #![trigger self@.contains_key(k)]
                    #![trigger before.contains_key(k)]
                    (self@.contains_key(k) ==> before.contains_key(k)) && (before.contains_key(k)
                        && !test.meets(k) ==> self@.contains_key(k)),
                forall|k: K::V| #[trigger] self@.contains_key(k) ==> self@[k] == before[k],
            decreases self.entries@.len() - i,
        {
            if test.test(&self.entries[i].0) {
                let gone = self.remove_at(i);
            } else {
                i += 1;
            }
        }
        proof {
            self.lemma_items();
            assert forall|k: K::V| self@.contains_key(k) implies !test.meets(k) by {
                let j = choose|j: int|
                    0 <= j < self.items().len() && (#[trigger] self.items()[j]).0@ == k;
                assert(!test.meets(self.entries@[j].0@));
            }
            assert(self@ =~= before.remove_keys(dropped));
        }
    }

    /// Take everything out.
    pub fn clear(&mut self)
        ensures
            final(self).wf(),
            final(self)@ == Map::<K::V, V>::empty(),
            final(self).items() == Seq::<(K, V)>::empty(),
    {
        self.entries.clear();
        assert(self@ =~= Map::<K::V, V>::empty());
    }
}

impl Key for String {
    fn same_key(&self, other: &Self) -> (r: bool) {
        *self == *other
    }
}

impl Key for u64 {
    fn same_key(&self, other: &Self) -> (r: bool) {
        *self == *other
    }
}

impl<A: Key, B: Key> Key for (A, B) {
    fn same_key(&self, other: &Self) -> (r: bool) {
        self.0.same_key(&other.0) && self.1.same_key(&other.1)
    }
}

impl Key for crate::model::PartitionIndex {
    fn same_key(&self, other: &Self) -> (r: bool) {
        self.0 == other.0
    }
}

impl Key for crate::model::NodeId {
    fn same_key(&self, other: &Self) -> (r: bool) {
        self.same(other)
    }
}

impl<V: Copy> KeyedMap<GroupKey, V> {
    /// A copy of this map.
    pub fn copied(&self) -> (r: Self)
        ensures
            r.items() == self.items(),
            self.wf() ==> r.wf() && r@ == self@,
    {
        let mut entries: Vec<(GroupKey, V)> = Vec::new();
        let mut i: usize = 0;
        while i < self.entries.len()
            invariant
                i <= self.entries@.len(),
                entries@ == self.entries@.take(i as int),
            decreases self.entries@.len() - i,
        {
            let entry = &self.entries[i];
            entries.push((model::clone_group(&entry.0), entry.1));
            i += 1;
            assert(entries@ =~= self.entries@.take(i as int));
        }
        let r = KeyedMap { entries };
        proof {
            assert(r.items() =~= self.items());
            if self.wf() {
                self.lemma_items();
                r.lemma_items();
                assert forall|k: GroupView| #[trigger] r@.contains_key(k) == self@.contains_key(
                    k,
                ) by {
                    if r@.contains_key(k) {
                        let i = choose|i: int|
                            0 <= i < r.items().len() && (#[trigger] r.items()[i]).0@ == k;
                        assert(self.items()[i].0@ == k);
                    }
                    if self@.contains_key(k) {
                        let i = choose|i: int|
                            0 <= i < self.items().len() && (#[trigger] self.items()[i]).0@ == k;
                        assert(r.items()[i].0@ == k);
                    }
                }
                assert forall|k: GroupView| #[trigger] r@.contains_key(k) implies r@[k]
                    == self@[k] by {
                    let i = choose|i: int|
                        0 <= i < r.items().len() && (#[trigger] r.items()[i]).0@ == k;
                    assert(self.items()[i].0@ == k);
                }
                assert(r@ =~= self@);
            }
        }
        r
    }
}

} // verus!
