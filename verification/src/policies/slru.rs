//! Segmented LRU: a small probationary segment takes every new entry, and a
//! protected segment (about four fifths of the capacity) holds entries that
//! were touched again. A first access buys cheap-to-evict probationary
//! residence; a second one earns protected residence that a scan of one-time
//! keys cannot dislodge. When the protected segment overflows during a
//! promotion, its least recently used entry is dropped outright; demoting it
//! back to the probationary segment would be the gentler variant, but this
//! cache deliberately lets it go.

use vstd::prelude::*;
use crate::{CacheKey, CachePolicy, PrefetchStrategy};
use crate::keylist::KeyedList;
use crate::prefetch::NoPrefetch;
use super::{record_prediction_round, PrefetchStats};

verus! {

/// A fixed-capacity SLRU cache with an attached prediction strategy.
pub struct SlruCache<K, V, P = NoPrefetch> {
    probationary: KeyedList<K, V>,
    protected: KeyedList<K, V>,
    capacity: usize,
    probationary_capacity: usize,
    protected_capacity: usize,
    prefetch_strategy: P,
    prefetch_buffer_size: usize,
    prefetch_stats: PrefetchStats,
}

impl<K, V, P> SlruCache<K, V, P> {
    /// The probationary segment, most recently inserted first.
    pub closed spec fn probationary_order(&self) -> Seq<(K, V)> {
        self.probationary@
    }

    /// The protected segment, most recently used first.
    pub closed spec fn protected_order(&self) -> Seq<(K, V)> {
        self.protected@
    }

    pub closed spec fn in_probationary(&self, k: K) -> bool {
        self.probationary.contains_key(k)
    }

    pub closed spec fn in_protected(&self, k: K) -> bool {
        self.protected.contains_key(k)
    }

    /// Where `k` sits in the probationary segment (meaningful when present).
    pub closed spec fn probationary_index_of(&self, k: K) -> int {
        self.probationary.index_of(k)
    }

    /// Where `k` sits in the protected segment (meaningful when present).
    pub closed spec fn protected_index_of(&self, k: K) -> int {
        self.protected.index_of(k)
    }

    /// The bound of the probationary segment: a fifth of the capacity,
    /// rounded down.
    pub closed spec fn probationary_cap(&self) -> nat {
        self.probationary_capacity as nat
    }

    /// The bound of the protected segment: four fifths of the capacity,
    /// rounded up.
    pub closed spec fn protected_cap(&self) -> nat {
        self.protected_capacity as nat
    }

    /// The prediction counters.
    pub closed spec fn pstats(&self) -> PrefetchStats {
        self.prefetch_stats
    }

    pub closed spec fn lists_wf(&self) -> bool {
        &&& self.probationary.wf()
        &&& self.protected.wf()
        &&& self.capacity >= 1
        &&& self.protected_capacity >= 1
        &&& self.probationary_capacity + self.protected_capacity == self.capacity
        &&& self.protected@.len() <= self.protected_capacity
        &&& self.probationary@.len() <= (if self.probationary_capacity >= 1 {
            self.probationary_capacity as int
        } else {
            1int
        })
        &&& self.probationary@.len() + self.protected@.len() <= self.capacity
        &&& forall|k: K|
            !(#[trigger] self.probationary.contains_key(k)
                && #[trigger] self.protected.contains_key(k))
    }

    pub closed spec fn wf(&self) -> bool {
        &&& self.lists_wf()
        &&& self.prefetch_buffer_size >= 1
    }
}

impl<K: CacheKey, V> SlruCache<K, V, NoPrefetch> {
    /// Create an SLRU cache that holds at most `capacity` entries, with the
    /// no-op prediction strategy.
    pub fn new(capacity: usize) -> (r: Self)
        requires
            capacity >= 1,
        ensures
            r.inv(),
            r.spec_cap() == capacity,
            r.spec_len() == 0,
            r.probationary_cap() == capacity / 5,
            r.protected_cap() == capacity - capacity / 5,
            r.probationary_cap() + r.protected_cap() == capacity,
            r.probationary_order().len() == 0,
            r.protected_order().len() == 0,
            forall|k: K| #[trigger] r.lookup(k) is None,
            r.pstats().is_zero(),
    {
        Self::with_custom_prefetch(capacity, NoPrefetch)
    }
}

impl<K: CacheKey, V, P: PrefetchStrategy<K>> SlruCache<K, V, P> {
    /// Create an SLRU cache that consults the given prediction strategy.
    pub fn with_custom_prefetch(capacity: usize, prefetch_strategy: P) -> (r: Self)
        requires
            capacity >= 1,
        ensures
            r.inv(),
            r.spec_cap() == capacity,
            r.spec_len() == 0,
            r.probationary_cap() == capacity / 5,
            r.protected_cap() == capacity - capacity / 5,
            r.probationary_cap() + r.protected_cap() == capacity,
            r.probationary_order().len() == 0,
            r.protected_order().len() == 0,
            forall|k: K| #[trigger] r.lookup(k) is None,
            r.pstats().is_zero(),
    {
        let probationary_capacity = capacity / 5;
        let protected_capacity = capacity - probationary_capacity;
        let buf = if capacity / 4 >= 1 {
            capacity / 4
        } else {
            1
        };
        let r = SlruCache {
            probationary: KeyedList::new(),
            protected: KeyedList::new(),
            capacity,
            probationary_capacity,
            protected_capacity,
            prefetch_strategy,
            prefetch_buffer_size: buf,
            prefetch_stats: PrefetchStats::default(),
        };
        proof {
            assert(forall|k: K| !r.probationary.contains_key(k));
            assert(forall|k: K| !r.protected.contains_key(k));
        }
        r
    }

    /// What `lookup` returns is exactly the association the two segments together
    /// publish: the probationary segment is consulted first, then the protected one.
    pub proof fn lemma_lookup_over_lists(&self)
        requires
            self.inv(),
        ensures
            self.spec_len() == self.probationary_order().len() + self.protected_order().len(),
            forall|k: K| #[trigger]
                self.lookup(k) == (if crate::keylist::seq_contains_key(self.probationary_order(), k) {
                    crate::keylist::seq_lookup(self.probationary_order(), k)
                } else {
                    crate::keylist::seq_lookup(self.protected_order(), k)
                }),
            forall|k: K| #[trigger]
                crate::keylist::seq_contains_key(self.probationary_order(), k) ==> 0 <= self.probationary_index_of(k)
                    < self.probationary_order().len() && self.probationary_order()[self.probationary_index_of(k)].0 == k
                    && self.lookup(k) == Some(self.probationary_order()[self.probationary_index_of(k)].1),
            forall|k: K| #[trigger]
                crate::keylist::seq_contains_key(self.protected_order(), k) ==> 0 <= self.protected_index_of(k)
                    < self.protected_order().len() && self.protected_order()[self.protected_index_of(k)].0 == k && (
                !crate::keylist::seq_contains_key(self.probationary_order(), k) ==> self.lookup(k) == Some(
                    self.protected_order()[self.protected_index_of(k)].1,
                )),
            forall|k: K| #[trigger]
                self.in_probationary(k) == crate::keylist::seq_contains_key(self.probationary_order(), k),
            forall|k: K| #[trigger]
                self.in_protected(k) == crate::keylist::seq_contains_key(self.protected_order(), k),
    {
        self.probationary.lemma_lookup_matches_seq();
        self.protected.lemma_lookup_matches_seq();
        assert forall|k: K| #[trigger]
            self.in_probationary(k) == crate::keylist::seq_contains_key(self.probationary@, k) by {
            if self.probationary.contains_key(k) {
                let i = self.probationary.index_of(k);
                assert(0 <= i < self.probationary@.len() && self.probationary@[i].0 == k);
                assert(crate::keylist::seq_contains_key(self.probationary@, k));
            } else {
                if crate::keylist::seq_contains_key(self.probationary@, k) {
                    let i = crate::keylist::seq_index_of(self.probationary@, k);
                    assert(0 <= i < self.probationary@.len() && self.probationary@[i].0 == k);
                    assert(self.probationary.contains_key(k));
                }
            }
        }
        assert forall|k: K| #[trigger]
            self.in_protected(k) == crate::keylist::seq_contains_key(self.protected@, k) by {
            if self.protected.contains_key(k) {
                let i = self.protected.index_of(k);
                assert(0 <= i < self.protected@.len() && self.protected@[i].0 == k);
                assert(crate::keylist::seq_contains_key(self.protected@, k));
            } else {
                if crate::keylist::seq_contains_key(self.protected@, k) {
                    let i = crate::keylist::seq_index_of(self.protected@, k);
                    assert(0 <= i < self.protected@.len() && self.protected@[i].0 == k);
                    assert(self.protected.contains_key(k));
                }
            }
        }
        assert forall|k: K| #[trigger]
            crate::keylist::seq_contains_key(self.probationary@, k) implies 0 <= self.probationary_index_of(k) < self.probationary@.len()
            && self.probationary@[self.probationary_index_of(k)].0 == k && self.lookup(k) == Some(
            self.probationary@[self.probationary_index_of(k)].1) by {
            let i1 = crate::keylist::seq_index_of(self.probationary@, k);
            assert(0 <= i1 < self.probationary@.len() && self.probationary@[i1].0 == k);
            assert(self.probationary.contains_key(k));
            let i0 = self.probationary.index_of(k);
            assert(0 <= i0 < self.probationary@.len() && self.probationary@[i0].0 == k);
        }
        assert forall|k: K| #[trigger]
            crate::keylist::seq_contains_key(self.protected@, k) implies 0 <= self.protected_index_of(k) < self.protected@.len()
            && self.protected@[self.protected_index_of(k)].0 == k && (!crate::keylist::seq_contains_key(self.probationary@, k)
            ==> self.lookup(k) == Some(self.protected@[self.protected_index_of(k)].1)) by {
            let i1 = crate::keylist::seq_index_of(self.protected@, k);
            assert(0 <= i1 < self.protected@.len() && self.protected@[i1].0 == k);
            assert(self.protected.contains_key(k));
            let i0 = self.protected.index_of(k);
            assert(0 <= i0 < self.protected@.len() && self.protected@[i0].0 == k);
            if !crate::keylist::seq_contains_key(self.probationary@, k) {
                if self.probationary.contains_key(k) {
                    let j = self.probationary.index_of(k);
                    assert(0 <= j < self.probationary@.len() && self.probationary@[j].0 == k);
                    assert(crate::keylist::seq_contains_key(self.probationary@, k));
                }
            }
        }

        assert forall|k: K| #[trigger]
            self.lookup(k) == (if crate::keylist::seq_contains_key(self.probationary_order(), k) {
                crate::keylist::seq_lookup(self.probationary_order(), k)
            } else {
                crate::keylist::seq_lookup(self.protected_order(), k)
            }) by {
            assert(self.probationary.lookup(k) == crate::keylist::seq_lookup(self.probationary@, k));
            assert(self.protected.lookup(k) == crate::keylist::seq_lookup(self.protected@, k));
            if self.probationary.contains_key(k) {
                let i = self.probationary.index_of(k);
                assert(0 <= i < self.probationary@.len() && self.probationary@[i].0 == k);
                assert(crate::keylist::seq_contains_key(self.probationary@, k));
            } else {
                if crate::keylist::seq_contains_key(self.probationary@, k) {
                    let i = crate::keylist::seq_index_of(self.probationary@, k);
                    assert(0 <= i < self.probationary@.len() && self.probationary@[i].0 == k);
                    assert(self.probationary.contains_key(k));
                }
            }
        }
    }

    /// The prediction counters so far.
    pub fn prefetch_stats(&self) -> (r: &PrefetchStats)
        ensures
            *r == self.pstats(),
    {
        &self.prefetch_stats
    }

    /// Zero the prediction counters and reset the strategy; cached entries
    /// are untouched.
    pub fn reset_prefetch_stats(&mut self)
        requires
            old(self).inv(),
        ensures
            final(self).inv(),
            final(self).pstats().is_zero(),
            final(self).probationary_order() == old(self).probationary_order(),
            final(self).protected_order() == old(self).protected_order(),
            final(self).spec_cap() == old(self).spec_cap(),
    {
        self.prefetch_stats = PrefetchStats::default();
        self.prefetch_strategy.reset();
    }
}

impl<K, V, P> SlruCache<K, V, P> {
    /// What the two segments together cache under `k`.
    pub closed spec fn cached_lookup(&self, k: K) -> Option<V> {
        if self.probationary.contains_key(k) {
            self.probationary.lookup(k)
        } else {
            self.protected.lookup(k)
        }
    }
}

impl<K: CacheKey, V, P: PrefetchStrategy<K>> CachePolicy<K, V> for SlruCache<K, V, P> {
    closed spec fn inv(&self) -> bool {
        self.wf()
    }

    closed spec fn spec_cap(&self) -> nat {
        self.capacity as nat
    }

    closed spec fn spec_len(&self) -> nat {
        self.probationary@.len() + self.protected@.len()
    }

    closed spec fn lookup(&self, k: K) -> Option<V> {
        self.cached_lookup(k)
    }

    /// A probationary hit promotes the entry to the front of the protected
    /// segment (the second access earns protection), dropping protected's
    /// least recently used entry first if that segment is full. A protected
    /// hit moves the entry to the front of the protected segment. Either
    /// way, after a hit the key resides in the protected segment, which
    /// never exceeds its configured bound.
    fn get(&mut self, key: &K) -> (r: Option<&V>)
        ensures
            final(self).probationary_cap() == old(self).probationary_cap(),
            final(self).protected_cap() == old(self).protected_cap(),
            old(self).lookup(*key) is Some ==> final(self).in_protected(*key) && !final(self).in_probationary(*key),
            final(self).protected_order().len() <= final(self).protected_cap(),
            old(self).in_probationary(*key) ==> final(self).probationary_order() == old(self).probationary_order().remove(old(self).probationary_index_of(*key)),
            old(self).in_probationary(*key) && old(self).protected_order().len() < old(self).protected_cap() ==> final(self).protected_order() == seq![
                (*key, old(self).probationary_order()[old(self).probationary_index_of(*key)].1),
            ] + old(self).protected_order(),
            old(self).in_probationary(*key) && old(self).protected_order().len() >= old(self).protected_cap() ==> final(self).protected_order() == seq![
                (*key, old(self).probationary_order()[old(self).probationary_index_of(*key)].1),
            ] + old(self).protected_order().drop_last(),
            old(self).in_protected(*key) ==> final(self).protected_order() == seq![
                (*key, old(self).protected_order()[old(self).protected_index_of(*key)].1),
            ] + old(self).protected_order().remove(old(self).protected_index_of(*key)) && final(self).probationary_order() == old(self).probationary_order(),
    {
        let ghost pre = *self;
        match self.probationary.remove_key(key) {
            Some((k, v)) => {
                proof {
                    let i = pre.probationary.index_of(*key);
                    assert(0 <= i < pre.probationary@.len() && pre.probationary@[i].0 == *key);
                    pre.probationary.lemma_index_unique(i);
                    KeyedList::lemma_remove_lookup(pre.probationary, self.probationary, i);
                }
                if self.protected.len() >= self.protected_capacity {
                    let ghost before = *self;
                    let _ = self.protected.pop_back();
                    proof {
                        KeyedList::lemma_remove_lookup(
                            before.protected,
                            self.protected,
                            before.protected@.len() - 1,
                        );
                    }
                }
                let ghost mid = *self;
                self.protected.push_front(k, v);
                proof {
                    KeyedList::lemma_push_front_lookup(mid.protected, self.protected, k, v);
                    assert(k == *key);
                }
                let _ = record_prediction_round(&mut self.prefetch_strategy, &mut self.prefetch_stats, key);
                match self.protected.get_ref(key) {
                    Some(vr) => Some(vr),
                    None => {
                        proof {
                            assert(false);
                        }
                        None
                    },
                }
            },
            None => {
                proof {
                    KeyedList::lemma_same_lookup(pre.probationary, self.probationary);
                }
                match self.protected.remove_key(key) {
                    Some((k, v)) => {
                        proof {
                            let i = pre.protected.index_of(*key);
                            assert(0 <= i < pre.protected@.len() && pre.protected@[i].0 == *key);
                            pre.protected.lemma_index_unique(i);
                            KeyedList::lemma_remove_lookup(pre.protected, self.protected, i);
                        }
                        let ghost mid = *self;
                        self.protected.push_front(k, v);
                        proof {
                            KeyedList::lemma_push_front_lookup(mid.protected, self.protected, k, v);
                            assert(k == *key);
                        }
                        let _ = record_prediction_round(
                            &mut self.prefetch_strategy,
                            &mut self.prefetch_stats,
                            key,
                        );
                        match self.protected.get_ref(key) {
                            Some(vr) => Some(vr),
                            None => {
                                proof {
                                    assert(false);
                                }
                                None
                            },
                        }
                    },
                    None => {
                        proof {
                            KeyedList::lemma_same_lookup(pre.protected, self.protected);
                        }
                        None
                    },
                }
            },
        }
    }

    /// Updating a cached key overwrites its value in place (and, when it is
    /// protected, moves it to the front of its segment); an update does not
    /// promote. A fresh key enters at the front of the probationary segment
    /// after its least recently used entry is evicted if that segment is
    /// full; in the degenerate split where the probationary bound is zero
    /// and the cache is otherwise full, protected's least recently used
    /// entry is dropped to keep the total within the capacity.
    fn insert(&mut self, key: K, value: V)
        ensures
            final(self).probationary_cap() == old(self).probationary_cap(),
            final(self).protected_cap() == old(self).protected_cap(),
            old(self).in_probationary(key) ==> final(self).in_probationary(key),
            old(self).in_protected(key) ==> final(self).in_protected(key),
            !old(self).in_probationary(key) && !old(self).in_protected(key) ==> final(self).in_probationary(key) && final(self).probationary_order()[0] == (key, value),
            final(self).protected_order().len() <= final(self).protected_cap(),
            old(self).in_probationary(key) ==> final(self).probationary_order() == old(self).probationary_order().update(old(self).probationary_index_of(key), (key, value))
                && final(self).protected_order() == old(self).protected_order(),
            old(self).in_protected(key) ==> final(self).protected_order() == seq![(key, value)]
                + old(self).protected_order().remove(old(self).protected_index_of(key)) && final(self).probationary_order() == old(self).probationary_order(),
            (!old(self).in_probationary(key) && !old(self).in_protected(key)) ==> ({
                let trimmed = if old(self).probationary_order().len()
                    >= old(self).probationary_cap() && old(self).probationary_order().len() > 0 {
                    old(self).probationary_order().drop_last()
                } else {
                    old(self).probationary_order()
                };
                &&& final(self).probationary_order() == seq![(key, value)] + trimmed
                &&& final(self).protected_order() == (if trimmed.len() + old(self).protected_order().len() >= old(self).spec_cap() && old(self).protected_order().len() > 0 {
                    old(self).protected_order().drop_last()
                } else {
                    old(self).protected_order()
                })
            }),
    {
        let ghost pre = *self;
        if self.probationary.contains(&key) {
            let _ = self.probationary.set_value(&key, value);
            return ;
        }
        if self.protected.contains(&key) {
            match self.protected.remove_key(&key) {
                Some(_) => {
                    proof {
                        let i = pre.protected.index_of(key);
                        assert(0 <= i < pre.protected@.len() && pre.protected@[i].0 == key);
                        pre.protected.lemma_index_unique(i);
                        KeyedList::lemma_remove_lookup(pre.protected, self.protected, i);
                    }
                    let ghost mid = *self;
                    self.protected.push_front(key, value);
                    proof {
                        KeyedList::lemma_push_front_lookup(mid.protected, self.protected, key, value);
                    }
                },
                None => {
                    proof {
                        assert(false);
                    }
                },
            }
            return ;
        }
        // A fresh key starts on probation.
        if self.probationary.len() >= self.probationary_capacity && self.probationary.len() > 0 {
            let ghost before = *self;
            let _ = self.probationary.pop_back();
            proof {
                KeyedList::lemma_remove_lookup(
                    before.probationary,
                    self.probationary,
                    before.probationary@.len() - 1,
                );
            }
        }
        if self.probationary.len() + self.protected.len() >= self.capacity {
            let ghost before = *self;
            let _ = self.protected.pop_back();
            proof {
                if before.protected@.len() > 0 {
                    KeyedList::lemma_remove_lookup(
                        before.protected,
                        self.protected,
                        before.protected@.len() - 1,
                    );
                } else {
                    KeyedList::lemma_same_lookup(before.protected, self.protected);
                }
            }
        }
        let ghost mid = *self;
        self.probationary.push_front(key, value);
        proof {
            KeyedList::lemma_push_front_lookup(mid.probationary, self.probationary, key, value);
            assert(self.lists_wf());
        }
    }

    fn remove(&mut self, key: &K) -> (r: Option<V>)
        ensures
            final(self).probationary_cap() == old(self).probationary_cap(),
            final(self).protected_cap() == old(self).protected_cap(),
            old(self).in_probationary(*key) ==> final(self).probationary_order() == old(self).probationary_order().remove(old(self).probationary_index_of(*key)),
    {
        let ghost pre = *self;
        match self.probationary.remove_key(key) {
            Some((_, v)) => {
                proof {
                    let i = pre.probationary.index_of(*key);
                    assert(0 <= i < pre.probationary@.len() && pre.probationary@[i].0 == *key);
                    pre.probationary.lemma_index_unique(i);
                    KeyedList::lemma_remove_lookup(pre.probationary, self.probationary, i);
                }
                return Some(v);
            },
            None => {
                proof {
                    KeyedList::lemma_same_lookup(pre.probationary, self.probationary);
                }
            },
        }
        match self.protected.remove_key(key) {
            Some((_, v)) => {
                proof {
                    let i = pre.protected.index_of(*key);
                    assert(0 <= i < pre.protected@.len() && pre.protected@[i].0 == *key);
                    pre.protected.lemma_index_unique(i);
                    KeyedList::lemma_remove_lookup(pre.protected, self.protected, i);
                }
                Some(v)
            },
            None => {
                proof {
                    KeyedList::lemma_same_lookup(pre.protected, self.protected);
                }
                None
            },
        }
    }

    fn len(&self) -> (r: usize) {
        proof {
            assert(self.wf());
        }
        let r = self.probationary.len() + self.protected.len();
        proof {
            assert(r as nat == self.spec_len());
            assert(r as nat <= self.spec_cap());
        }
        r
    }

    /// Both segments are released.
    fn clear(&mut self)
        ensures
            final(self).probationary_cap() == old(self).probationary_cap(),
            final(self).protected_cap() == old(self).protected_cap(),
            final(self).probationary_order().len() == 0,
            final(self).protected_order().len() == 0,
    {
        self.probationary.clear();
        self.protected.clear();
        proof {
            assert(forall|k2: K| !self.probationary.contains_key(k2));
            assert(forall|k2: K| !self.protected.contains_key(k2));
        }
    }

    fn capacity(&self) -> (r: usize) {
        self.capacity
    }
}

} // verus!
