//! Least Frequently Used: every entry carries an access count. An access or
//! an update raises the count and moves the entry behind all others, so among
//! entries of equal count the earliest to reach that count comes first.
//! Eviction removes the first entry holding the minimum count: the oldest
//! entry at the lowest frequency.

use vstd::prelude::*;
use crate::{spec_sat_inc, sat_inc, CacheKey, CachePolicy, PrefetchStrategy};
use crate::keylist::KeyedList;
use crate::prefetch::NoPrefetch;
use super::{record_prediction_round, PrefetchStats};

verus! {

/// A fixed-capacity LFU cache with an attached prediction strategy.
pub struct LfuCache<K, V, P = NoPrefetch> {
    list: KeyedList<K, (V, u64)>,
    capacity: usize,
    prefetch_strategy: P,
    prefetch_buffer_size: usize,
    prefetch_stats: PrefetchStats,
}

/// Whether index `i` is the eviction victim of `s`: it holds the minimum
/// access count, and every earlier entry holds a strictly greater one.
pub open spec fn is_lfu_victim<K, V>(s: Seq<(K, (V, u64))>, i: int) -> bool {
    &&& 0 <= i < s.len()
    &&& forall|j: int| 0 <= j < s.len() ==> (#[trigger] s[j]).1.1 >= s[i].1.1
    &&& forall|j: int| 0 <= j < i ==> (#[trigger] s[j]).1.1 > s[i].1.1
}

impl<K, V, P> LfuCache<K, V, P> {
    /// The entries with their access counts; among equal counts, the entry
    /// that reached the count earliest comes first.
    pub closed spec fn order(&self) -> Seq<(K, (V, u64))> {
        self.list@
    }

    /// Where `k` currently sits in that order (meaningful on a hit).
    pub closed spec fn key_index(&self, k: K) -> int {
        self.list.index_of(k)
    }

    /// The access count of `k` (meaningful on a hit).
    pub closed spec fn freq_of(&self, k: K) -> u64 {
        self.list.value_of(k).1
    }

    /// The prediction counters.
    pub closed spec fn pstats(&self) -> PrefetchStats {
        self.prefetch_stats
    }

    pub closed spec fn wf(&self) -> bool {
        &&& self.list.wf()
        &&& self.capacity >= 1
        &&& self.list@.len() <= self.capacity
        &&& self.prefetch_buffer_size >= 1
    }
}

impl<K: CacheKey, V> LfuCache<K, V, NoPrefetch> {
    /// Create an LFU cache that holds at most `capacity` entries, with the
    /// no-op prediction strategy.
    pub fn new(capacity: usize) -> (r: Self)
        requires
            capacity >= 1,
        ensures
            r.inv(),
            r.spec_cap() == capacity,
            r.spec_len() == 0,
            r.order().len() == 0,
            forall|k: K| #[trigger] r.lookup(k) is None,
            r.pstats().is_zero(),
    {
        Self::with_custom_prefetch(capacity, NoPrefetch)
    }

    /// Create an LFU cache with a capacity of 100 entries.
    pub fn with_default_capacity() -> (r: Self)
        ensures
            r.inv(),
            r.spec_cap() == 100,
            r.spec_len() == 0,
            r.order().len() == 0,
            forall|k: K| #[trigger] r.lookup(k) is None,
            r.pstats().is_zero(),
    {
        Self::new(100)
    }
}

impl<K: CacheKey, V, P: PrefetchStrategy<K>> LfuCache<K, V, P> {
    /// Create an LFU cache that consults the given prediction strategy.
    pub fn with_custom_prefetch(capacity: usize, prefetch_strategy: P) -> (r: Self)
        requires
            capacity >= 1,
        ensures
            r.inv(),
            r.spec_cap() == capacity,
            r.spec_len() == 0,
            r.order().len() == 0,
            forall|k: K| #[trigger] r.lookup(k) is None,
            r.pstats().is_zero(),
    {
        let buf = if capacity / 4 >= 1 {
            capacity / 4
        } else {
            1
        };
        let r = LfuCache {
            list: KeyedList::new(),
            capacity,
            prefetch_strategy,
            prefetch_buffer_size: buf,
            prefetch_stats: PrefetchStats::default(),
        };
        proof {
            assert(forall|k: K| !r.list.contains_key(k));
        }
        r
    }

    /// What `lookup` returns is exactly the value half of the association
    /// the published order holds.
    pub proof fn lemma_lookup_over_order(&self)
        requires
            self.inv(),
        ensures
            self.spec_len() == self.order().len(),
            forall|k: K| #[trigger]
                self.lookup(k) == (match crate::keylist::seq_lookup(self.order(), k) {
                    Some(p) => Some(p.0),
                    None => None,
                }),
            forall|k: K| #[trigger]
                crate::keylist::seq_contains_key(self.order(), k) ==> 0 <= self.key_index(k)
                    < self.order().len() && self.order()[self.key_index(k)].0 == k && self.lookup(
                    k,
                ) == Some(self.order()[self.key_index(k)].1.0) && self.freq_of(k)
                    == self.order()[self.key_index(k)].1.1,
    {
        self.list.lemma_lookup_matches_seq();
        assert forall|k: K| #[trigger]
            crate::keylist::seq_contains_key(self.order(), k) implies 0 <= self.key_index(k)
            < self.order().len() && self.order()[self.key_index(k)].0 == k && self.lookup(k)
            == Some(self.order()[self.key_index(k)].1.0) && self.freq_of(k)
            == self.order()[self.key_index(k)].1.1 by {
            let i1 = crate::keylist::seq_index_of(self.list@, k);
            assert(0 <= i1 < self.list@.len() && self.list@[i1].0 == k);
            assert(self.list.contains_key(k));
            let i0 = self.list.index_of(k);
            assert(0 <= i0 < self.list@.len() && self.list@[i0].0 == k);
        }
    }

    /// The prediction counters so far.
    pub fn prefetch_stats(&self) -> (r: &PrefetchStats)
        ensures
            *r == self.pstats(),
    {
        &self.prefetch_stats
    }

    /// Zero the prediction counters and reset the strategy; cached entries
    /// are untouched.
    pub fn reset_prefetch_stats(&mut self)
        requires
            old(self).inv(),
        ensures
            final(self).inv(),
            final(self).pstats().is_zero(),
            final(self).order() == old(self).order(),
            final(self).spec_cap() == old(self).spec_cap(),
    {
        self.prefetch_stats = PrefetchStats::default();
        self.prefetch_strategy.reset();
    }

    /// Bound the speculative buffer; at least one slot is always kept.
    pub fn set_prefetch_buffer_size(&mut self, size: usize)
        requires
            old(self).inv(),
        ensures
            final(self).inv(),
            final(self).order() == old(self).order(),
            final(self).pstats() == old(self).pstats(),
            final(self).spec_cap() == old(self).spec_cap(),
    {
        self.prefetch_buffer_size = if size >= 1 {
            size
        } else {
            1
        };
    }

    /// The index of the entry the LFU rule would evict next: the first entry
    /// holding the minimum access count.
    fn find_victim(&self) -> (r: usize)
        requires
            self.inv(),
            self.spec_len() > 0,
        ensures
            is_lfu_victim(self.order(), r as int),
    {
        let n = self.list.len();
        let mut best: usize = 0;
        let mut i: usize = 1;
        while i < n
            invariant
                n == self.list@.len(),
                0 < n,
                best < i <= n,
                forall|j: int| 0 <= j < i ==> (#[trigger] self.list@[j]).1.1
                    >= self.list@[best as int].1.1,
                forall|j: int| 0 <= j < best ==> (#[trigger] self.list@[j]).1.1
                    > self.list@[best as int].1.1,
            decreases n - i,
        {
            if self.list.at(i).1.1 < self.list.at(best).1.1 {
                best = i;
            }
            i += 1;
        }
        best
    }
}

impl<K: CacheKey, V, P: PrefetchStrategy<K>> CachePolicy<K, V> for LfuCache<K, V, P> {
    closed spec fn inv(&self) -> bool {
        self.wf()
    }

    closed spec fn spec_cap(&self) -> nat {
        self.capacity as nat
    }

    closed spec fn spec_len(&self) -> nat {
        self.list@.len()
    }

    closed spec fn lookup(&self, k: K) -> Option<V> {
        match self.list.lookup(k) {
            Some(p) => Some(p.0),
            None => None,
        }
    }

    /// A hit raises the entry's access count by one (stopping at the largest
    /// representable count) and moves it behind all other entries.
    fn get(&mut self, key: &K) -> (r: Option<&V>)
        ensures
            old(self).lookup(*key) is Some ==> final(self).order() == old(self).order().remove(
                old(self).key_index(*key),
            ).push(
                (
                    *key,
                    (
                        old(self).order()[old(self).key_index(*key)].1.0,
                        spec_sat_inc(old(self).freq_of(*key)),
                    ),
                ),
            ),
    {
        let ghost pre = *self;
        match self.list.remove_key(key) {
            Some((k, (v, f))) => {
                proof {
                    assert(pre.list.contains_key(*key));
                    let i = pre.list.index_of(*key);
                    assert(0 <= i < pre.list@.len() && pre.list@[i].0 == *key);
                    pre.list.lemma_index_unique(i);
                    KeyedList::lemma_remove_lookup(pre.list, self.list, i);
                }
                let nf = sat_inc(f);
                let ghost mid = *self;
                self.list.push_back(k, (v, nf));
                proof {
                    KeyedList::lemma_push_back_lookup(mid.list, self.list, k, (v, nf));
                    assert(k == *key);
                    assert(self.list.lookup(*key) == Some((v, nf)));
                }
                let _ = record_prediction_round(&mut self.prefetch_strategy, &mut self.prefetch_stats, key);
                match self.list.get_ref(key) {
                    Some(vr) => Some(&vr.0),
                    None => {
                        proof {
                            assert(false);
                        }
                        None
                    },
                }
            },
            None => {
                proof {
                    KeyedList::lemma_same_lookup(pre.list, self.list);
                }
                None
            },
        }
    }

    /// Updating a cached key overwrites its value and counts as an access.
    /// A fresh key enters with count 1 behind all others; when the cache is
    /// full, the first entry holding the minimum count is evicted first.
    fn insert(&mut self, key: K, value: V)
        ensures
            old(self).lookup(key) is Some ==> final(self).order() == old(self).order().remove(
                old(self).key_index(key),
            ).push((key, (value, spec_sat_inc(old(self).freq_of(key))))),
            old(self).lookup(key) is None && old(self).spec_len() < old(self).spec_cap()
                ==> final(self).order() == old(self).order().push((key, (value, 1u64))),
            old(self).lookup(key) is None && old(self).spec_len() == old(self).spec_cap() ==> (
            exists|i: int|
                is_lfu_victim(old(self).order(), i) && final(self).order() == old(self).order().remove(i).push((key, (value, 1u64)))),
    {
        let ghost pre = *self;
        match self.list.remove_key(&key) {
            Some((k, (_, f))) => {
                proof {
                    let i = pre.list.index_of(key);
                    assert(0 <= i < pre.list@.len() && pre.list@[i].0 == key);
                    pre.list.lemma_index_unique(i);
                    KeyedList::lemma_remove_lookup(pre.list, self.list, i);
                }
                let nf = sat_inc(f);
                let ghost mid = *self;
                self.list.push_back(k, (value, nf));
                proof {
                    KeyedList::lemma_push_back_lookup(mid.list, self.list, k, (value, nf));
                }
            },
            None => {
                proof {
                    KeyedList::lemma_same_lookup(pre.list, self.list);
                }
                if self.list.len() == self.capacity {
                    let victim = self.find_victim();
                    let ghost before = *self;
                    let _ = self.list.remove_at(victim);
                    proof {
                        KeyedList::lemma_remove_lookup(before.list, self.list, victim as int);
                    }
                    let ghost mid = *self;
                    self.list.push_back(key, (value, 1));
                    proof {
                        KeyedList::lemma_push_back_lookup(mid.list, self.list, key, (value, 1u64));
                        assert(self.order() == old(self).order().remove(victim as int).push(
                            (key, (value, 1u64)),
                        ));
                        assert(is_lfu_victim(old(self).order(), victim as int));
                        assert(exists|i: int|
                            is_lfu_victim(old(self).order(), i) && self.order() == old(self).order().remove(i).push((key, (value, 1u64))));
                    }
                } else {
                    let ghost mid = *self;
                    self.list.push_back(key, (value, 1));
                    proof {
                        KeyedList::lemma_push_back_lookup(mid.list, self.list, key, (value, 1u64));
                    }
                }
            },
        }
    }

    fn remove(&mut self, key: &K) -> (r: Option<V>)
        ensures
            old(self).lookup(*key) is Some ==> final(self).order() == old(self).order().remove(
                old(self).key_index(*key),
            ),
    {
        let ghost pre = *self;
        match self.list.remove_key(key) {
            Some((_, (v, _))) => {
                proof {
                    let i = pre.list.index_of(*key);
                    assert(0 <= i < pre.list@.len() && pre.list@[i].0 == *key);
                    pre.list.lemma_index_unique(i);
                    KeyedList::lemma_remove_lookup(pre.list, self.list, i);
                }
                Some(v)
            },
            None => None,
        }
    }

    fn len(&self) -> (r: usize) {
        let r = self.list.len();
        proof {
            assert(self.wf());
            assert(r <= self.capacity);
            assert(r as nat <= self.spec_cap());
            assert(r as nat == self.spec_len());
        }
        r
    }

    fn clear(&mut self) {
        self.list.clear();
        proof {
            assert(forall|k2: K| !self.list.contains_key(k2));
        }
    }

    fn capacity(&self) -> (r: usize) {
        self.capacity
    }
}

} // verus!
