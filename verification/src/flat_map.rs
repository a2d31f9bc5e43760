use vstd::prelude::*;

verus! {

/// A map stored as a vector of key/value pairs held in ascending key order.
/// The abstract value is the key/value map `self@`; the backing vector is
/// reachable through `as_slice`.
pub struct FlatMap<V>(Vec<(u64, V)>);

impl<V> FlatMap<V> {
    /// The backing entries, in storage order.
    pub closed spec fn spec_entries(self) -> Seq<(u64, V)> {
        self.0@
    }

    /// The entries of a sequence of pairs, later pairs winning.
    pub open spec fn map_of(s: Seq<(u64, V)>) -> Map<u64, V>
        decreases s.len(),
    {
        if s.len() == 0 {
            Map::empty()
        } else {
            Self::map_of(s.drop_last()).insert(s.last().0, s.last().1)
        }
    }

    /// The invariant: keys strictly ascend, so each key is stored once.
    pub open spec fn well_formed(self) -> bool {
        forall|i: int, j: int|
            0 <= i < j < self.spec_entries().len() ==> (#[trigger] self.spec_entries()[i]).0 < (
            #[trigger] self.spec_entries()[j]).0
    }

    /// Every stored pair is in the map of a duplicate-free sequence, and
    /// every key of that map is stored.
    pub(crate) proof fn lemma_map_of_props(s: Seq<(u64, V)>)
        requires
            forall|i: int, j: int|
                0 <= i < j < s.len() ==> (#[trigger] s[i]).0 != (#[trigger] s[j]).0,
        ensures
            forall|i: int|
                0 <= i < s.len() ==> Self::map_of(s).contains_pair(
                    (#[trigger] s[i]).0,
                    s[i].1,
                ),
            forall|k: u64|
                #[trigger] Self::map_of(s).dom().contains(k) ==> exists|i: int|
                    0 <= i < s.len() && (#[trigger] s[i]).0 == k,
            Self::map_of(s).dom().finite(),
            Self::map_of(s).dom().len() == s.len(),
        decreases s.len(),
    {
        if s.len() > 0 {
            Self::lemma_map_of_props(s.drop_last());
            let prev = Self::map_of(s.drop_last());
            assert(!prev.dom().contains(s.last().0)) by {
                if prev.dom().contains(s.last().0) {
                    let i = choose|i: int|
                        0 <= i < s.drop_last().len() && (#[trigger] s.drop_last()[i]).0
                            == s.last().0;
                    assert(s[i].0 == s[s.len() - 1].0);
                }
            }
            assert forall|i: int| 0 <= i < s.len() implies Self::map_of(s).contains_pair(
                (#[trigger] s[i]).0,
                s[i].1,
            ) by {
                if i < s.len() - 1 {
                    assert(prev.contains_pair(s.drop_last()[i].0, s.drop_last()[i].1));
                    assert(s[i].0 != s.last().0);
                }
            }
            assert(Self::map_of(s).dom() =~= prev.dom().insert(s.last().0));
        }
    }

    /// Builds an empty map.
    pub fn new() -> (r: Self)
        ensures
            r.well_formed(),
            Self::map_of(r.spec_entries()) == Map::<u64, V>::empty(),
            r.spec_entries() == Seq::<(u64, V)>::empty(),
    {
        FlatMap(Vec::new())
    }

    /// Number of entries.
    pub fn len(&self) -> (r: usize)
        requires
            self.well_formed(),
        ensures
            r == self.spec_entries().len(),
            r == Self::map_of(self.spec_entries()).dom().len(),
    {
        proof {
            Self::lemma_map_of_props(self.spec_entries());
        }
        self.0.len()
    }

    /// True exactly when no entry is stored.
    pub fn is_empty(&self) -> (r: bool)
        requires
            self.well_formed(),
        ensures
            r == (self.spec_entries().len() == 0),
    {
        self.0.len() == 0
    }

    /// How many entries the backing vector can hold before it reallocates.
    /// Relies on std's Vec::capacity: at least the current length.
    pub fn capacity(&self) -> (r: usize)
        ensures
            r >= self.spec_entries().len(),
    {
        Self::vec_capacity(&self.0)
    }

    /// Relies on std's Vec::capacity: the documentation promises the
    /// capacity is at least the length.
    #[verifier::external_body]
    fn vec_capacity(v: &Vec<(u64, V)>) -> (r: usize)
        ensures
            r >= v@.len(),
    {
        v.capacity()
    }

    /// The stored pairs in ascending key order.
    pub fn as_slice(&self) -> (r: &[(u64, V)])
        ensures
            r@ == self.spec_entries(),
    {
        self.0.as_slice()
    }

    /// Position of the first entry whose key is not below the given key, in
    /// a vector of ascending keys.
    fn lower_bound(&self, key: u64) -> (r: usize)
        requires
            self.well_formed(),
        ensures
            r <= self.spec_entries().len(),
            forall|j: int| 0 <= j < r ==> (#[trigger] self.spec_entries()[j]).0 < key,
            forall|j: int|
                r <= j < self.spec_entries().len() ==> (#[trigger] self.spec_entries()[j]).0
                    >= key,
    {
        let n = self.0.len();
        let mut i: usize = 0;
        while i < n
            invariant
                self.well_formed(),
                n == self.spec_entries().len(),
                i <= n,
                forall|j: int| 0 <= j < i ==> (#[trigger] self.spec_entries()[j]).0 < key,
            decreases n - i,
        {
            if self.0[i].0 >= key {
                return i;
            }
            i = i + 1;
        }
        i
    }

    /// Stores the value under the key, keeping the vector sorted, and hands
    /// back the value the key held before, if any.
    pub fn insert(&mut self, key: u64, value: V) -> (r: Option<V>)
        requires
            old(self).well_formed(),
            old(self).spec_entries().len() < usize::MAX,
        ensures
            final(self).well_formed(),
            Self::map_of(final(self).spec_entries()) == Self::map_of(
                old(self).spec_entries(),
            ).insert(key, value),
            r == (if Self::map_of(old(self).spec_entries()).dom().contains(key) {
                Some(Self::map_of(old(self).spec_entries())[key])
            } else {
                None::<V>
            }),
    {
        proof {
            Self::lemma_map_of_props(self.spec_entries());
        }
        let ghost s0 = self.spec_entries();
        let i = self.lower_bound(key);
        if i < self.0.len() && self.0[i].0 == key {
            let mut pair = (key, value);
            core::mem::swap(&mut self.0[i], &mut pair);

            proof {
                assert(self.spec_entries() =~= s0.update(i as int, (key, value)));
                Self::lemma_map_of_props(self.spec_entries());
                Self::lemma_update_value(s0, i as int, key, value);
                assert(Self::map_of(s0).contains_pair(key, pair.1));
            }
            Some(pair.1)
        } else {
            self.0.insert(i, (key, value));
            proof {
                assert forall|a: int, b: int|
                    0 <= a < b < self.spec_entries().len() implies (
                #[trigger] self.spec_entries()[a]).0 < (#[trigger] self.spec_entries()[b]).0 by {
                    if a < i && b > i {
                        assert(s0[a].0 < key);
                    }
                }
                assert(!Self::map_of(s0).dom().contains(key)) by {
                    if Self::map_of(s0).dom().contains(key) {
                        let j = choose|j: int| 0 <= j < s0.len() && (#[trigger] s0[j]).0 == key;
                    }
                }
                Self::lemma_insert_at(s0, i as int, key, value);
            }
            None
        }
    }

    /// Updating the pair at a position replaces that key's value in the map,
    /// when keys are distinct.
    proof fn lemma_update_value(s: Seq<(u64, V)>, i: int, key: u64, value: V)
        requires
            0 <= i < s.len(),
            s[i].0 == key,
            forall|a: int, b: int| 0 <= a < b < s.len() ==> (#[trigger] s[a]).0 != (
            #[trigger] s[b]).0,
        ensures
            Self::map_of(s.update(i, (key, value))) == Self::map_of(s).insert(key, value),
        decreases s.len(),
    {
        let su = s.update(i, (key, value));
        if i == s.len() - 1 {
            assert(su.drop_last() =~= s.drop_last());
            assert(Self::map_of(s.update(i, (key, value))) =~= Self::map_of(s).insert(key, value));
        } else {
            Self::lemma_update_value(s.drop_last(), i, key, value);
            assert(su.drop_last() =~= s.drop_last().update(i, (key, value)));
            assert(su.last() == s.last());
            assert(s[i].0 != s.last().0);
            assert(Self::map_of(su) == Self::map_of(su.drop_last()).insert(
                su.last().0,
                su.last().1,
            ));
            assert(Self::map_of(su) =~= Self::map_of(s).insert(key, value));
        }
    }

    /// Inserting a pair under a fresh key at any position adds that entry
    /// to the map.
    proof fn lemma_insert_at(s: Seq<(u64, V)>, i: int, key: u64, value: V)
        requires
            0 <= i <= s.len(),
            forall|j: int| 0 <= j < s.len() ==> (#[trigger] s[j]).0 != key,
        ensures
            Self::map_of(s.insert(i, (key, value))) == Self::map_of(s).insert(key, value),
        decreases s.len(),
    {
        let si = s.insert(i, (key, value));
        if i == s.len() {
            assert(si.drop_last() =~= s);
            assert(si.last() == (key, value));
        } else {
            Self::lemma_insert_at(s.drop_last(), i, key, value);
            assert(si.drop_last() =~= s.drop_last().insert(i, (key, value)));
            assert(si.last() == s.last());
            assert(Self::map_of(si) =~= Self::map_of(s).insert(key, value)) by {
                assert(Self::map_of(si) == Self::map_of(si.drop_last()).insert(
                    si.last().0,
                    si.last().1,
                ));
            }
        }
    }

    /// Removing the pair at a position removes that key from the map, when
    /// keys are distinct.
    proof fn lemma_remove_at(s: Seq<(u64, V)>, i: int)
        requires
            0 <= i < s.len(),
            forall|a: int, b: int| 0 <= a < b < s.len() ==> (#[trigger] s[a]).0 != (
            #[trigger] s[b]).0,
        ensures
            Self::map_of(s.remove(i)) == Self::map_of(s).remove(s[i].0),
        decreases s.len(),
    {
        Self::lemma_map_of_props(s);
        let sr = s.remove(i);
        if i == s.len() - 1 {
            assert(sr =~= s.drop_last());
            Self::lemma_map_of_props(s.drop_last());
            assert(!Self::map_of(s.drop_last()).dom().contains(s[i].0)) by {
                if Self::map_of(s.drop_last()).dom().contains(s[i].0) {
                    let j = choose|j: int|
                        0 <= j < s.drop_last().len() && (#[trigger] s.drop_last()[j]).0 == s[i].0;
                    assert(s[j].0 == s[i].0);
                }
            }
            assert(Self::map_of(sr) =~= Self::map_of(s).remove(s[i].0));
        } else {
            Self::lemma_remove_at(s.drop_last(), i);
            assert(sr.drop_last() =~= s.drop_last().remove(i));
            assert(sr.last() == s.last());
            assert(s[i].0 != s.last().0);
            assert(Self::map_of(sr) == Self::map_of(sr.drop_last()).insert(
                sr.last().0,
                sr.last().1,
            ));
            assert(Self::map_of(sr) =~= Self::map_of(s).remove(s[i].0));
        }
    }

    /// The value stored under the key, if any.
    pub fn get(&self, key: u64) -> (r: Option<&V>)
        requires
            self.well_formed(),
        ensures
            match r {
                Some(v) => Self::map_of(self.spec_entries()).dom().contains(key) && *v
                    == Self::map_of(self.spec_entries())[key],
                None => !Self::map_of(self.spec_entries()).dom().contains(key),
            },
    {
        proof {
            Self::lemma_map_of_props(self.spec_entries());
        }
        let i = self.lower_bound(key);
        if i < self.0.len() && self.0[i].0 == key {
            proof {
                assert(Self::map_of(self.spec_entries()).contains_pair(
                    self.spec_entries()[i as int].0,
                    self.spec_entries()[i as int].1,
                ));
            }
            Some(&self.0[i].1)
        } else {
            proof {
                assert(!Self::map_of(self.spec_entries()).dom().contains(key)) by {
                    if Self::map_of(self.spec_entries()).dom().contains(key) {
                        let j = choose|j: int|
                            0 <= j < self.spec_entries().len() && (
                            #[trigger] self.spec_entries()[j]).0 == key;
                    }
                }
            }
            None
        }
    }

    /// Removes the key and hands back the value it held, if any.
    pub fn remove(&mut self, key: u64) -> (r: Option<V>)
        requires
            old(self).well_formed(),
        ensures
            final(self).well_formed(),
            Self::map_of(final(self).spec_entries()) == Self::map_of(
                old(self).spec_entries(),
            ).remove(key),
            r == (if Self::map_of(old(self).spec_entries()).dom().contains(key) {
                Some(Self::map_of(old(self).spec_entries())[key])
            } else {
                None::<V>
            }),
    {
        match self.remove_entry(key) {
            Some(p) => Some(p.1),
            None => None,
        }
    }

    /// Removes the key and hands back the stored pair, if any.
    pub fn remove_entry(&mut self, key: u64) -> (r: Option<(u64, V)>)
        requires
            old(self).well_formed(),
        ensures
            final(self).well_formed(),
            Self::map_of(final(self).spec_entries()) == Self::map_of(
                old(self).spec_entries(),
            ).remove(key),
            r == (if Self::map_of(old(self).spec_entries()).dom().contains(key) {
                Some((key, Self::map_of(old(self).spec_entries())[key]))
            } else {
                None::<(u64, V)>
            }),
    {
        proof {
            Self::lemma_map_of_props(self.spec_entries());
        }
        let ghost s0 = self.spec_entries();
        let i = self.lower_bound(key);
        if i < self.0.len() && self.0[i].0 == key {
            proof {
                assert(Self::map_of(s0).contains_pair(s0[i as int].0, s0[i as int].1));
                Self::lemma_remove_at(s0, i as int);
            }
            let pair = self.0.remove(i);
            Some(pair)
        } else {
            proof {
                assert(!Self::map_of(s0).dom().contains(key)) by {
                    if Self::map_of(s0).dom().contains(key) {
                        let j = choose|j: int| 0 <= j < s0.len() && (#[trigger] s0[j]).0 == key;
                    }
                }
                assert(Self::map_of(s0).remove(key) =~= Self::map_of(s0));
            }
            None
        }
    }
}

} // verus!
