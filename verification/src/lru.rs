use vstd::prelude::*;

use crate::flat_map::FlatMap;

verus! {

/// A bounded map that evicts the entry touched longest ago.  The entries
/// are kept in recency order, the least recently used first; reading or
/// writing a key moves its entry to the back, and an insertion into a full
/// cache pushes the front entry out.
pub struct LRUCache<V> {
    capacity: usize,
    entries: Vec<(u64, V)>,
}

impl<V> LRUCache<V> {
    /// The stored pairs, least recently used first.
    pub closed spec fn spec_entries(self) -> Seq<(u64, V)> {
        self.entries@
    }

    pub closed spec fn spec_capacity(self) -> nat {
        self.capacity as nat
    }

    /// The invariant: each key is stored once, no more entries than the
    /// capacity, and the capacity is positive.
    pub open spec fn well_formed(self) -> bool {
        &&& forall|i: int, j: int|
            0 <= i < j < self.spec_entries().len() ==> (#[trigger] self.spec_entries()[i]).0 != (
            #[trigger] self.spec_entries()[j]).0
        &&& self.spec_entries().len() <= self.spec_capacity()
        &&& self.spec_capacity() >= 1
    }

    /// A cache for up to `capacity` entries.
    pub fn new(capacity: usize) -> (r: Self)
        requires
            capacity > 0,
        ensures
            r.well_formed(),
            r.spec_entries() == Seq::<(u64, V)>::empty(),
            r.spec_capacity() == capacity,
    {
        Self { capacity, entries: Vec::new() }
    }

    /// Position of the key's entry, or the length when it is absent.
    fn find(&self, key: u64) -> (r: usize)
        ensures
            r <= self.spec_entries().len(),
            r < self.spec_entries().len() ==> self.spec_entries()[r as int].0 == key,
            forall|j: int| 0 <= j < r ==> (#[trigger] self.spec_entries()[j]).0 != key,
    {
        let n = self.entries.len();
        let mut i: usize = 0;
        while i < n
            invariant
                i <= n,
                n == self.spec_entries().len(),
                forall|j: int| 0 <= j < i ==> (#[trigger] self.spec_entries()[j]).0 != key,
            decreases n - i,
        {
            if self.entries[i].0 == key {
                return i;
            }
            i = i + 1;
        }
        i
    }

    /// The value stored under the key, if any; a hit marks the entry as the
    /// most recently used.
    pub fn get(&mut self, key: u64) -> (r: Option<&V>)
        requires
            old(self).well_formed(),
        ensures
            final(self).well_formed(),
            final(self).spec_capacity() == old(self).spec_capacity(),
            match r {
                Some(v) => {
                    &&& FlatMap::<V>::map_of(old(self).spec_entries()).dom().contains(key)
                    &&& *v == FlatMap::<V>::map_of(old(self).spec_entries())[key]
                    &&& exists|i: int|
                        0 <= i < old(self).spec_entries().len()
                            && (#[trigger] old(self).spec_entries()[i]).0 == key
                            && final(self).spec_entries()
                            == old(self).spec_entries().remove(i).push(old(self).spec_entries()[i])
                },
                None => {
                    &&& !FlatMap::<V>::map_of(old(self).spec_entries()).dom().contains(key)
                    &&& final(self).spec_entries() == old(self).spec_entries()
                },
            },
    {
        proof {
            FlatMap::<V>::lemma_map_of_props(self.spec_entries());
        }
        let ghost s0 = self.spec_entries();
        let i = self.find(key);
        if i < self.entries.len() {
            proof {
                assert(FlatMap::<V>::map_of(s0).contains_pair(s0[i as int].0, s0[i as int].1));
            }
            let pair = self.entries.remove(i);
            self.entries.push(pair);
            proof {
                assert forall|a: int, b: int|
                    0 <= a < b < self.spec_entries().len() implies (
                #[trigger] self.spec_entries()[a]).0 != (#[trigger] self.spec_entries()[b]).0 by {
                    if b == self.spec_entries().len() - 1 {
                        if a < i {
                            assert(s0[a].0 != s0[i as int].0);
                        } else {
                            assert(s0[a + 1].0 != s0[i as int].0);
                        }
                    }
                }
            }
            let n = self.entries.len();
            Some(&self.entries[n - 1].1)
        } else {
            proof {
                if FlatMap::<V>::map_of(s0).dom().contains(key) {
                    let j = choose|j: int| 0 <= j < s0.len() && (#[trigger] s0[j]).0 == key;
                    assert(false);
                }
            }
            None
        }
    }

    /// Stores the value under the key and hands back the value the key held
    /// before, if any.  The entry becomes the most recently used; a new key
    /// in a full cache pushes the least recently used entry out.
    pub fn insert(&mut self, key: u64, value: V) -> (r: Option<V>)
        requires
            old(self).well_formed(),
        ensures
            final(self).well_formed(),
            final(self).spec_capacity() == old(self).spec_capacity(),
            match r {
                Some(w) => {
                    &&& FlatMap::<V>::map_of(old(self).spec_entries()).dom().contains(key)
                    &&& w == FlatMap::<V>::map_of(old(self).spec_entries())[key]
                    &&& exists|i: int|
                        0 <= i < old(self).spec_entries().len()
                            && (#[trigger] old(self).spec_entries()[i]).0 == key
                            && final(self).spec_entries()
                            == old(self).spec_entries().remove(i).push((key, value))
                },
                None => {
                    &&& !FlatMap::<V>::map_of(old(self).spec_entries()).dom().contains(key)
                    &&& final(self).spec_entries() == (
                    if old(self).spec_entries().len() < old(self).spec_capacity() {
                        old(self).spec_entries().push((key, value))
                    } else {
                        old(self).spec_entries().drop_first().push((key, value))
                    })
                },
            },
    {
        proof {
            FlatMap::<V>::lemma_map_of_props(self.spec_entries());
        }
        let ghost s0 = self.spec_entries();
        let i = self.find(key);
        if i < self.entries.len() {
            proof {
                assert(FlatMap::<V>::map_of(s0).contains_pair(s0[i as int].0, s0[i as int].1));
            }
            let old_pair = self.entries.remove(i);
            self.entries.push((key, value));
            proof {
                assert forall|a: int, b: int|
                    0 <= a < b < self.spec_entries().len() implies (
                #[trigger] self.spec_entries()[a]).0 != (#[trigger] self.spec_entries()[b]).0 by {
                    if b == self.spec_entries().len() - 1 {
                        if a < i {
                            assert(s0[a].0 != s0[i as int].0);
                        } else {
                            assert(s0[a + 1].0 != s0[i as int].0);
                        }
                    }
                }
            }
            Some(old_pair.1)
        } else {
            proof {
                if FlatMap::<V>::map_of(s0).dom().contains(key) {
                    let j = choose|j: int| 0 <= j < s0.len() && (#[trigger] s0[j]).0 == key;
                    assert(false);
                }
            }
            if self.entries.len() == self.capacity {
                let _evicted = self.entries.remove(0);
                self.entries.push((key, value));
                proof {
                    assert(self.spec_entries().drop_last() =~= s0.drop_first());
                    assert(self.spec_entries() =~= s0.drop_first().push((key, value)));
                    assert forall|a: int, b: int|
                        0 <= a < b < self.spec_entries().len() implies (
                    #[trigger] self.spec_entries()[a]).0 != (
                    #[trigger] self.spec_entries()[b]).0 by {
                        if b == self.spec_entries().len() - 1 {
                            assert(self.spec_entries()[a] == s0[a + 1]);
                        }
                    }
                }
                None
            } else {
                self.entries.push((key, value));
                None
            }
        }
    }
}

} // verus!
