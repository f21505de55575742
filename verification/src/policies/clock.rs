//! Clock (second-chance) replacement: an approximation of LRU in O(1)
//! bookkeeping per access. A hit only sets the entry's reference bit and
//! moves nothing. When a fresh key arrives and no slot is free, the hand
//! sweeps the ring: entries with the bit set lose it and are spared, and the
//! first entry found with the bit clear is replaced.

use vstd::prelude::*;
use crate::{CacheKey, CachePolicy, PrefetchStrategy};
use crate::ring::{occ, lemma_occ_le_len, same_entries, ClockRing, RingEntry};
use crate::prefetch::NoPrefetch;
use super::{record_prediction_round, PrefetchStats};

verus! {

/// A fixed-capacity Clock cache with an attached prediction strategy.
pub struct ClockCache<K, V, P = NoPrefetch> {
    ring: ClockRing<K, V>,
    prefetch_strategy: P,
    prefetch_buffer_size: usize,
    prefetch_stats: PrefetchStats,
}

impl<K, V, P> ClockCache<K, V, P> {
    /// The slot array: each slot empty or holding a key, a value and a
    /// reference bit.
    pub closed spec fn slots(&self) -> Seq<Option<RingEntry<K, V>>> {
        self.ring@
    }

    /// The position the eviction hand will examine first.
    pub closed spec fn hand_pos(&self) -> int {
        self.ring.hand_pos()
    }

    /// The slot holding `k` (meaningful on a hit).
    pub closed spec fn slot_of(&self, k: K) -> int {
        self.ring.slot_of(k)
    }

    /// The prediction counters.
    pub closed spec fn pstats(&self) -> PrefetchStats {
        self.prefetch_stats
    }

    pub closed spec fn wf(&self) -> bool {
        &&& self.ring.wf()
        &&& self.prefetch_buffer_size >= 1
    }
}

impl<K: CacheKey, V> ClockCache<K, V, NoPrefetch> {
    /// Create a Clock cache of `capacity` slots, with the no-op prediction
    /// strategy.
    pub fn new(capacity: usize) -> (r: Self)
        requires
            capacity >= 1,
        ensures
            r.inv(),
            r.spec_cap() == capacity,
            r.spec_len() == 0,
            r.slots().len() == capacity,
            forall|i: int| 0 <= i < r.slots().len() ==> (#[trigger] r.slots()[i]) is None,
            forall|k: K| #[trigger] r.lookup(k) is None,
            r.pstats().is_zero(),
    {
        Self::with_custom_prefetch(capacity, NoPrefetch)
    }
}

impl<K: CacheKey, V, P: PrefetchStrategy<K>> ClockCache<K, V, P> {
    /// Create a Clock cache that consults the given prediction strategy.
    pub fn with_custom_prefetch(capacity: usize, prefetch_strategy: P) -> (r: Self)
        requires
            capacity >= 1,
        ensures
            r.inv(),
            r.spec_cap() == capacity,
            r.spec_len() == 0,
            r.slots().len() == capacity,
            forall|i: int| 0 <= i < r.slots().len() ==> (#[trigger] r.slots()[i]) is None,
            forall|k: K| #[trigger] r.lookup(k) is None,
            r.pstats().is_zero(),
    {
        let buf = if capacity / 4 >= 1 {
            capacity / 4
        } else {
            1
        };
        let r = ClockCache {
            ring: ClockRing::new(capacity),
            prefetch_strategy,
            prefetch_buffer_size: buf,
            prefetch_stats: PrefetchStats::default(),
        };
        r
    }

    /// What `lookup` returns is exactly the association of the published
    /// slot array.
    pub proof fn lemma_lookup_over_slots(&self)
        requires
            self.inv(),
        ensures
            self.spec_len() == crate::ring::occ(self.slots()),
            self.spec_cap() == self.slots().len(),
            forall|k: K| #[trigger] self.lookup(k) == crate::ring::slots_lookup(self.slots(), k),
            forall|k: K| #[trigger]
                crate::ring::slots_hold_key(self.slots(), k) ==> 0 <= self.slot_of(k)
                    < self.slots().len() && self.slots()[self.slot_of(k)] is Some
                    && self.slots()[self.slot_of(k)]->0.key == k && self.lookup(k) == Some(
                    self.slots()[self.slot_of(k)]->0.value,
                ),
    {
        self.ring.lemma_lookup_matches_slots();
        assert forall|k: K| #[trigger]
            self.lookup(k) == crate::ring::slots_lookup(self.slots(), k) by {
            let x = crate::ring::slots_lookup(self.ring@, k);
        }
        assert forall|k: K| #[trigger]
            crate::ring::slots_hold_key(self.slots(), k) implies 0 <= self.slot_of(k)
            < self.slots().len() && self.slots()[self.slot_of(k)] is Some
            && self.slots()[self.slot_of(k)]->0.key == k && self.lookup(k) == Some(
            self.slots()[self.slot_of(k)]->0.value,
        ) by {
            let i1 = crate::ring::slot_index_of(self.ring@, k);
            assert(0 <= i1 < self.ring@.len() && self.ring@[i1] is Some && self.ring@[i1]->0.key
                == k);
            assert(self.ring.holds_key(k));
            let i0 = self.ring.slot_of(k);
            assert(0 <= i0 < self.ring@.len() && self.ring@[i0] is Some && self.ring@[i0]->0.key
                == k);
        }
    }

    /// The prediction counters so far.
    pub fn prefetch_stats(&self) -> (r: &PrefetchStats)
        ensures
            *r == self.pstats(),
    {
        &self.prefetch_stats
    }

    /// Zero the prediction counters and reset the strategy; cached entries
    /// are untouched.
    pub fn reset_prefetch_stats(&mut self)
        requires
            old(self).inv(),
        ensures
            final(self).inv(),
            final(self).pstats().is_zero(),
            final(self).slots() == old(self).slots(),
            final(self).spec_cap() == old(self).spec_cap(),
    {
        self.prefetch_stats = PrefetchStats::default();
        self.prefetch_strategy.reset();
    }
}

impl<K: CacheKey, V, P: PrefetchStrategy<K>> CachePolicy<K, V> for ClockCache<K, V, P> {
    closed spec fn inv(&self) -> bool {
        self.wf()
    }

    closed spec fn spec_cap(&self) -> nat {
        self.ring.slot_count()
    }

    closed spec fn spec_len(&self) -> nat {
        occ(self.ring@)
    }

    closed spec fn lookup(&self, k: K) -> Option<V> {
        if self.ring.holds_key(k) {
            Some(self.ring@[self.ring.slot_of(k)]->0.value)
        } else {
            None
        }
    }

    /// A hit sets the entry's reference bit and moves nothing: no slot
    /// changes hands, and the hand itself stays put.
    fn get(&mut self, key: &K) -> (r: Option<&V>)
        ensures
            final(self).hand_pos() == old(self).hand_pos(),
            same_entries(old(self).slots(), final(self).slots()),
            old(self).lookup(*key) is Some ==> final(self).slots()[old(self).slot_of(
                *key,
            )]->0.referenced,
    {
        let ghost pre = *self;
        let hit = self.ring.touch(key);
        if hit {
            proof {
                let i = pre.ring.slot_of(*key);
                assert(0 <= i < pre.ring@.len() && pre.ring@[i] is Some && pre.ring@[i]->0.key
                    == *key);
                let newe = Some(
                    RingEntry {
                        key: pre.ring@[i]->0.key,
                        value: pre.ring@[i]->0.value,
                        referenced: true,
                    },
                );
                ClockRing::lemma_update_lookup(pre.ring, self.ring, i, newe);
                crate::ring::lemma_occ_same(pre.ring@, self.ring@);
            }
            let _ = record_prediction_round(&mut self.prefetch_strategy, &mut self.prefetch_stats, key);
            match self.ring.value_ref(key) {
                Some(vr) => Some(vr),
                None => {
                    proof {
                        assert(false);
                    }
                    None
                },
            }
        } else {
            None
        }
    }

    /// Updating a cached key overwrites its value in place and sets its
    /// reference bit. A fresh key takes the first free slot if one exists;
    /// otherwise the hand sweeps once, sparing (and clearing) referenced
    /// entries, and replaces the first unreferenced one. An entry whose bit
    /// is set survives the insertion whenever any unreferenced entry exists.
    fn insert(&mut self, key: K, value: V)
        ensures
            final(self).hand_pos() == old(self).hand_pos() || old(self).lookup(key) is None && old(
                self,
            ).spec_len() == old(self).spec_cap(),
            (old(self).lookup(key) is None && old(self).spec_len() == old(self).spec_cap() && (
            exists|m: int|
                0 <= m < old(self).slots().len() && !(#[trigger] old(
                    self,
                ).slots()[m])->0.referenced)) ==> (forall|j: int|
                (0 <= j < old(self).slots().len() && (#[trigger] old(self).slots()[j]) is Some
                    && old(self).slots()[j]->0.referenced) ==> final(self).lookup(
                    old(self).slots()[j]->0.key,
                ) is Some),
    {
        let ghost pre = *self;
        if self.ring.position(&key).is_some() {
            let updated = self.ring.update_value(&key, value);
            proof {
                let i = pre.ring.slot_of(key);
                assert(0 <= i < pre.ring@.len() && pre.ring@[i] is Some && pre.ring@[i]->0.key
                    == key);
                let newe = Some(RingEntry { key: pre.ring@[i]->0.key, value, referenced: true });
                ClockRing::lemma_update_lookup(pre.ring, self.ring, i, newe);
                crate::ring::lemma_occ_same(pre.ring@, self.ring@);
                lemma_occ_le_len(self.ring@);
            }
        } else {
            match self.ring.find_empty() {
                Some(i) => {
                    let ghost mid = *self;
                    self.ring.install(i, key, value);
                    proof {
                        let newe = Some(RingEntry { key, value, referenced: true });
                        ClockRing::lemma_update_lookup(mid.ring, self.ring, i as int, newe);
                        lemma_occ_le_len(self.ring@);
                    }
                },
                None => {
                    let victim = self.ring.sweep_full();
                    let ghost swept = *self;
                    proof {
                        ClockRing::lemma_same_entries_lookup(pre.ring, swept.ring);
                    }
                    let (evicted_key, _) = self.ring.evict_at(victim);
                    let ghost gone = *self;
                    proof {
                        ClockRing::lemma_update_lookup(swept.ring, gone.ring, victim as int, None);
                    }
                    self.ring.install(victim, key, value);
                    proof {
                        let newe = Some(RingEntry { key, value, referenced: true });
                        ClockRing::lemma_update_lookup(gone.ring, self.ring, victim as int, newe);
                        lemma_occ_le_len(self.ring@);
                        if exists|m: int|
                            0 <= m < pre.ring@.len() && !(#[trigger] pre.ring@[m])->0.referenced {
                            assert(!pre.ring@[victim as int]->0.referenced);
                            assert forall|j: int|
                                (0 <= j < pre.ring@.len() && (#[trigger] pre.ring@[j]) is Some
                                    && pre.ring@[j]->0.referenced) implies final(self).lookup(
                                pre.ring@[j]->0.key,
                            ) is Some by {
                                assert(j != victim as int);
                                pre.ring.lemma_slot_unique(j);
                                let k2 = pre.ring@[j]->0.key;
                                assert(pre.ring.holds_key(k2));
                                assert(swept.ring.holds_key(k2));
                                assert(k2 != evicted_key);
                                assert(gone.ring.holds_key(k2));
                                assert(self.ring.holds_key(k2));
                            }
                        }
                    }
                },
            }
        }
    }

    fn remove(&mut self, key: &K) -> (r: Option<V>)
        ensures
            final(self).hand_pos() == old(self).hand_pos(),
            old(self).lookup(*key) is Some ==> final(self).slots() == old(self).slots().update(
                old(self).slot_of(*key),
                None,
            ),
    {
        let ghost pre = *self;
        match self.ring.position(key) {
            Some(i) => {
                let (_, v) = self.ring.evict_at(i);
                proof {
                    ClockRing::lemma_update_lookup(pre.ring, self.ring, i as int, None);
                }
                Some(v)
            },
            None => None,
        }
    }

    fn len(&self) -> (r: usize) {
        proof {
            lemma_occ_le_len(self.ring@);
        }
        let r = self.ring.len();
        proof {
            assert(r as nat == self.spec_len());
            assert(r as nat <= self.spec_cap());
        }
        r
    }

    /// Every slot is emptied and the hand returns to the start.
    fn clear(&mut self)
        ensures
            forall|i: int|
                0 <= i < final(self).slots().len() ==> (#[trigger] final(self).slots()[i]) is None,
            final(self).hand_pos() == 0,
    {
        self.ring.clear();
    }

    fn capacity(&self) -> (r: usize) {
        self.ring.capacity()
    }
}

} // verus!
