//! CAR (Clock with Adaptive Replacement): ARC's four-list adaptivity with
//! Clock's cheap per-access bookkeeping. T1 and T2 are reference-bit rings
//! with independent hands instead of strict-order lists, so a hit only sets
//! a bit; B1 and B2 remember recently evicted keys, and the target `p` moves
//! on ghost hits exactly as in ARC. Eviction sweeps the hand of whichever
//! ring exceeds its share, sparing (and clearing) referenced entries.

use vstd::prelude::*;
use crate::{CacheKey, CachePolicy, PrefetchStrategy};
use crate::keylist::KeyedList;
use crate::ring::{occ, lemma_occ_le_len, ClockRing, RingEntry};
use crate::prefetch::NoPrefetch;
use super::{record_prediction_round, PrefetchStats};
use super::arc::{spec_ceil_div, spec_p_after_b1_hit, spec_p_after_b2_hit};

verus! {

/// A fixed-capacity CAR cache with an attached prediction strategy.
pub struct CarCache<K, V, P = NoPrefetch> {
    t1: ClockRing<K, V>,
    t2: ClockRing<K, V>,
    b1: KeyedList<K, ()>,
    b2: KeyedList<K, ()>,
    p: usize,
    capacity: usize,
    prefetch_strategy: P,
    prefetch_buffer_size: usize,
    prefetch_stats: PrefetchStats,
}

impl<K, V, P> CarCache<K, V, P> {
    /// The recency ring's slots.
    pub closed spec fn t1_slots(&self) -> Seq<Option<RingEntry<K, V>>> {
        self.t1@
    }

    /// The frequency ring's slots.
    pub closed spec fn t2_slots(&self) -> Seq<Option<RingEntry<K, V>>> {
        self.t2@
    }

    /// The keys remembered after eviction from T1, oldest first.
    pub closed spec fn b1_keys(&self) -> Seq<K> {
        self.b1.key_seq()
    }

    /// The keys remembered after eviction from T2, oldest first.
    pub closed spec fn b2_keys(&self) -> Seq<K> {
        self.b2.key_seq()
    }

    pub closed spec fn in_t1(&self, k: K) -> bool {
        self.t1.holds_key(k)
    }

    pub closed spec fn in_t2(&self, k: K) -> bool {
        self.t2.holds_key(k)
    }

    pub closed spec fn in_b1(&self, k: K) -> bool {
        self.b1.contains_key(k)
    }

    pub closed spec fn in_b2(&self, k: K) -> bool {
        self.b2.contains_key(k)
    }

    /// The self-tuned target size of T1, always within `[0, capacity]`.
    pub closed spec fn p_target(&self) -> nat {
        self.p as nat
    }

    /// The prediction counters.
    pub closed spec fn pstats(&self) -> PrefetchStats {
        self.prefetch_stats
    }

    /// What the two rings together cache under `k`.
    pub closed spec fn cached_lookup(&self, k: K) -> Option<V> {
        if self.t1.holds_key(k) {
            Some(self.t1@[self.t1.slot_of(k)]->0.value)
        } else if self.t2.holds_key(k) {
            Some(self.t2@[self.t2.slot_of(k)]->0.value)
        } else {
            None
        }
    }

    pub closed spec fn lists_wf(&self) -> bool {
        &&& self.t1.wf()
        &&& self.t2.wf()
        &&& self.b1.wf()
        &&& self.b2.wf()
        &&& self.capacity >= 1
        &&& self.t1.slot_count() == self.capacity
        &&& self.t2.slot_count() == self.capacity
        &&& occ(self.t1@) + occ(self.t2@) <= self.capacity
        &&& self.b1@.len() <= self.capacity
        &&& self.b2@.len() <= self.capacity
        &&& forall|k: K| !(#[trigger] self.t1.holds_key(k) && #[trigger] self.t2.holds_key(k))
        &&& forall|k: K| !(#[trigger] self.t1.holds_key(k) && #[trigger] self.b1.contains_key(k))
        &&& forall|k: K| !(#[trigger] self.t1.holds_key(k) && #[trigger] self.b2.contains_key(k))
        &&& forall|k: K| !(#[trigger] self.t2.holds_key(k) && #[trigger] self.b1.contains_key(k))
        &&& forall|k: K| !(#[trigger] self.t2.holds_key(k) && #[trigger] self.b2.contains_key(k))
        &&& forall|k: K|
            !(#[trigger] self.b1.contains_key(k) && #[trigger] self.b2.contains_key(k))
    }

    pub closed spec fn wf(&self) -> bool {
        &&& self.lists_wf()
        &&& self.p <= self.capacity
        &&& self.prefetch_buffer_size >= 1
    }
}

impl<K: CacheKey, V> CarCache<K, V, NoPrefetch> {
    /// Create a CAR cache that holds at most `capacity` entries, with the
    /// no-op prediction strategy.
    pub fn new(capacity: usize) -> (r: Self)
        requires
            capacity >= 1,
        ensures
            r.inv(),
            r.spec_cap() == capacity,
            r.spec_len() == 0,
            r.t1_slots().len() == capacity,
            r.t2_slots().len() == capacity,
            forall|i: int| 0 <= i < r.t1_slots().len() ==> (#[trigger] r.t1_slots()[i]) is None,
            forall|i: int| 0 <= i < r.t2_slots().len() ==> (#[trigger] r.t2_slots()[i]) is None,
            r.b1_keys().len() == 0,
            r.b2_keys().len() == 0,
            forall|k: K| #[trigger] r.lookup(k) is None,
            r.p_target() == 0,
            r.pstats().is_zero(),
    {
        Self::with_custom_prefetch(capacity, NoPrefetch)
    }
}

impl<K: CacheKey, V, P: PrefetchStrategy<K>> CarCache<K, V, P> {
    /// Create a CAR cache that consults the given prediction strategy.
    pub fn with_custom_prefetch(capacity: usize, prefetch_strategy: P) -> (r: Self)
        requires
            capacity >= 1,
        ensures
            r.inv(),
            r.spec_cap() == capacity,
            r.spec_len() == 0,
            r.t1_slots().len() == capacity,
            r.t2_slots().len() == capacity,
            forall|i: int| 0 <= i < r.t1_slots().len() ==> (#[trigger] r.t1_slots()[i]) is None,
            forall|i: int| 0 <= i < r.t2_slots().len() ==> (#[trigger] r.t2_slots()[i]) is None,
            r.b1_keys().len() == 0,
            r.b2_keys().len() == 0,
            forall|k: K| #[trigger] r.lookup(k) is None,
            r.p_target() == 0,
            r.pstats().is_zero(),
    {
        let r = CarCache {
            t1: ClockRing::new(capacity),
            t2: ClockRing::new(capacity),
            b1: KeyedList::new(),
            b2: KeyedList::new(),
            p: 0,
            capacity,
            prefetch_strategy,
            prefetch_buffer_size: if capacity / 4 >= 1 {
                capacity / 4
            } else {
                1
            },
            prefetch_stats: PrefetchStats::default(),
        };
        proof {
            assert(forall|k: K| !r.b1.contains_key(k));
            assert(forall|k: K| !r.b2.contains_key(k));
        }
        r
    }

    /// What `lookup` returns is exactly the association T1 and T2 together
    /// publish: T1 is consulted first, then T2.
    pub proof fn lemma_lookup_over_slots(&self)
        requires
            self.inv(),
        ensures
            self.spec_len() == crate::ring::occ(self.t1_slots()) + crate::ring::occ(
                self.t2_slots(),
            ),
            self.spec_cap() == self.t1_slots().len(),
            self.spec_cap() == self.t2_slots().len(),
            forall|k: K| #[trigger]
                self.lookup(k) == (if crate::ring::slots_hold_key(self.t1_slots(), k) {
                    crate::ring::slots_lookup(self.t1_slots(), k)
                } else {
                    crate::ring::slots_lookup(self.t2_slots(), k)
                }),
            forall|k: K| #[trigger]
                self.in_t1(k) == crate::ring::slots_hold_key(self.t1_slots(), k),
            forall|k: K| #[trigger]
                self.in_t2(k) == crate::ring::slots_hold_key(self.t2_slots(), k),
            forall|k: K| #[trigger] self.in_b1(k) == self.b1_keys().contains(k),
            forall|k: K| #[trigger] self.in_b2(k) == self.b2_keys().contains(k),
    {
        self.t1.lemma_lookup_matches_slots();
        self.t2.lemma_lookup_matches_slots();
        assert forall|k: K| #[trigger]
            self.in_t1(k) == crate::ring::slots_hold_key(self.t1@, k) by {
            if self.t1.holds_key(k) {
                let i = self.t1.slot_of(k);
                assert(0 <= i < self.t1@.len() && self.t1@[i] is Some && self.t1@[i]->0.key == k);
                assert(crate::ring::slots_hold_key(self.t1@, k));
            } else {
                if crate::ring::slots_hold_key(self.t1@, k) {
                    let i = crate::ring::slot_index_of(self.t1@, k);
                    assert(0 <= i < self.t1@.len() && self.t1@[i] is Some && self.t1@[i]->0.key
                        == k);
                    assert(self.t1.holds_key(k));
                }
            }
        }
        assert forall|k: K| #[trigger]
            self.in_t2(k) == crate::ring::slots_hold_key(self.t2@, k) by {
            if self.t2.holds_key(k) {
                let i = self.t2.slot_of(k);
                assert(0 <= i < self.t2@.len() && self.t2@[i] is Some && self.t2@[i]->0.key == k);
                assert(crate::ring::slots_hold_key(self.t2@, k));
            } else {
                if crate::ring::slots_hold_key(self.t2@, k) {
                    let i = crate::ring::slot_index_of(self.t2@, k);
                    assert(0 <= i < self.t2@.len() && self.t2@[i] is Some && self.t2@[i]->0.key
                        == k);
                    assert(self.t2.holds_key(k));
                }
            }
        }
        assert forall|k: K| #[trigger] self.in_b1(k) == self.b1_keys().contains(k) by {
            if self.b1.contains_key(k) {
                let i = self.b1.index_of(k);
                assert(0 <= i < self.b1@.len() && self.b1@[i].0 == k);
                assert(self.b1_keys()[i] == k);
                assert(self.b1_keys().contains(k));
            } else {
                if self.b1_keys().contains(k) {
                    let i = choose|i: int| 0 <= i < self.b1_keys().len() && self.b1_keys()[i] == k;
                    assert(self.b1@[i].0 == k);
                    assert(self.b1.contains_key(k));
                }
            }
        }
        assert forall|k: K| #[trigger] self.in_b2(k) == self.b2_keys().contains(k) by {
            if self.b2.contains_key(k) {
                let i = self.b2.index_of(k);
                assert(0 <= i < self.b2@.len() && self.b2@[i].0 == k);
                assert(self.b2_keys()[i] == k);
                assert(self.b2_keys().contains(k));
            } else {
                if self.b2_keys().contains(k) {
                    let i = choose|i: int| 0 <= i < self.b2_keys().len() && self.b2_keys()[i] == k;
                    assert(self.b2@[i].0 == k);
                    assert(self.b2.contains_key(k));
                }
            }
        }
        assert forall|k: K| #[trigger]
            self.lookup(k) == (if crate::ring::slots_hold_key(self.t1_slots(), k) {
                crate::ring::slots_lookup(self.t1_slots(), k)
            } else {
                crate::ring::slots_lookup(self.t2_slots(), k)
            }) by {
            let x1 = crate::ring::slots_lookup(self.t1@, k);
            let x2 = crate::ring::slots_lookup(self.t2@, k);
            if self.t1.holds_key(k) {
                let i = self.t1.slot_of(k);
                assert(0 <= i < self.t1@.len() && self.t1@[i] is Some && self.t1@[i]->0.key == k);
                assert(crate::ring::slots_hold_key(self.t1@, k));
            } else {
                if crate::ring::slots_hold_key(self.t1@, k) {
                    let i = crate::ring::slot_index_of(self.t1@, k);
                    assert(0 <= i < self.t1@.len() && self.t1@[i] is Some && self.t1@[i]->0.key
                        == k);
                    assert(self.t1.holds_key(k));
                }
            }
        }
    }

    /// The prediction counters so far.
    pub fn prefetch_stats(&self) -> (r: &PrefetchStats)
        ensures
            *r == self.pstats(),
    {
        &self.prefetch_stats
    }

    /// Zero the prediction counters and reset the strategy; cached entries,
    /// histories and the target are untouched.
    pub fn reset_prefetch_stats(&mut self)
        requires
            old(self).inv(),
        ensures
            final(self).inv(),
            final(self).pstats().is_zero(),
            final(self).t1_slots() == old(self).t1_slots(),
            final(self).t2_slots() == old(self).t2_slots(),
            final(self).b1_keys() == old(self).b1_keys(),
            final(self).b2_keys() == old(self).b2_keys(),
            final(self).p_target() == old(self).p_target(),
            final(self).spec_cap() == old(self).spec_cap(),
    {
        self.prefetch_stats = PrefetchStats::default();
        self.prefetch_strategy.reset();
    }

    /// The eviction step: sweep the hand of T1 when T1 exceeds its target
    /// (or matches it on a B2 hit, or is the only non-empty ring), demoting
    /// the victim's key into the B1 history; otherwise sweep T2's hand and
    /// demote into B2. A history that outgrows the capacity loses its oldest
    /// key. Referenced entries are spared by the sweep: they only lose their
    /// bit, and one of them can fall victim only after a sweep cleared every
    /// bit of its ring.
    fn replace(&mut self, in_b2: bool)
        requires
            old(self).lists_wf(),
            old(self).p_target() <= old(self).spec_cap_field(),
            occ(old(self).t1_slots()) + occ(old(self).t2_slots()) >= 1,
        ensures
            final(self).lists_wf(),
            final(self).spec_cap_field() == old(self).spec_cap_field(),
            final(self).p_target() == old(self).p_target(),
            final(self).pstats() == old(self).pstats(),
            final(self).prefetch_buffer_size == old(self).prefetch_buffer_size,
            occ(final(self).t1_slots()) + occ(final(self).t2_slots()) == occ(old(self).t1_slots())
                + occ(old(self).t2_slots()) - 1,
            forall|k: K| #[trigger]
                final(self).cached_lookup(k) is Some ==> old(self).cached_lookup(k) == final(self).cached_lookup(k),
            forall|k: K|
                (#[trigger] old(self).in_b1(k) || #[trigger] old(self).in_b2(k)) ==> !final(self).in_t1(k) && !final(self).in_t2(k),
            forall|k: K| #[trigger]
                final(self).in_b1(k) ==> old(self).in_b1(k) || old(self).in_t1(k),
            forall|k: K| #[trigger]
                final(self).in_b2(k) ==> old(self).in_b2(k) || old(self).in_t2(k),
            (occ(old(self).t1_slots()) >= 1 && ((in_b2 && occ(old(self).t1_slots()) == old(self).p_target()) || occ(old(self).t1_slots()) > old(self).p_target() || occ(
                old(self).t2_slots(),
            ) == 0) && (exists|m: int|
                0 <= m < old(self).t1_slots().len() && (#[trigger] old(self).t1_slots()[m]) is Some
                    && !old(self).t1_slots()[m]->0.referenced)) ==> (forall|j: int|
                (0 <= j < old(self).t1_slots().len() && (#[trigger] old(self).t1_slots()[j])
                    is Some && old(self).t1_slots()[j]->0.referenced) ==> final(self).cached_lookup(old(self).t1_slots()[j]->0.key) is Some),
            (!(occ(old(self).t1_slots()) >= 1 && ((in_b2 && occ(old(self).t1_slots()) == old(self).p_target()) || occ(old(self).t1_slots()) > old(self).p_target() || occ(
                old(self).t2_slots(),
            ) == 0)) && (exists|m: int|
                0 <= m < old(self).t2_slots().len() && (#[trigger] old(self).t2_slots()[m]) is Some
                    && !old(self).t2_slots()[m]->0.referenced)) ==> (forall|j: int|
                (0 <= j < old(self).t2_slots().len() && (#[trigger] old(self).t2_slots()[j])
                    is Some && old(self).t2_slots()[j]->0.referenced) ==> final(self).cached_lookup(old(self).t2_slots()[j]->0.key) is Some),
    {
        let t1n = self.t1.len();
        let t2n = self.t2.len();
        let take_t1 = t1n >= 1 && ((in_b2 && t1n == self.p) || t1n > self.p || t2n == 0);
        if take_t1 {
            let ghost pre = *self;
            let victim = self.t1.sweep_occupied();
            let ghost swept = *self;
            proof {
                ClockRing::lemma_same_entries_lookup(pre.t1, swept.t1);
            }
            let (ek, _) = self.t1.evict_at(victim);
            let ghost gone = *self;
            proof {
                ClockRing::lemma_update_lookup(swept.t1, gone.t1, victim as int, None);
                assert(swept.t1.holds_key(ek));
                assert(pre.t1.holds_key(ek));
            }
            let ghost mid = *self;
            self.b1.push_back(ek, ());
            proof {
                KeyedList::lemma_push_back_lookup(mid.b1, self.b1, ek, ());
            }
            if self.b1.len() > self.capacity {
                let ghost before = *self;
                let _ = self.b1.pop_front();
                proof {
                    KeyedList::lemma_remove_lookup(before.b1, self.b1, 0);
                }
            }
            proof {
                if exists|m: int|
                    0 <= m < pre.t1@.len() && (#[trigger] pre.t1@[m]) is Some
                        && !pre.t1@[m]->0.referenced {
                    assert(!pre.t1@[victim as int]->0.referenced);
                    assert(ek == pre.t1@[victim as int]->0.key);
                    assert forall|j: int|
                        (0 <= j < pre.t1@.len() && (#[trigger] pre.t1@[j]) is Some
                            && pre.t1@[j]->0.referenced) implies self.cached_lookup(
                        pre.t1@[j]->0.key,
                    ) is Some by {
                        assert(j != victim as int);
                        pre.t1.lemma_slot_unique(j);
                        pre.t1.lemma_slot_unique(victim as int);
                        let kj = pre.t1@[j]->0.key;
                        assert(pre.t1.holds_key(kj));
                        assert(swept.t1.holds_key(kj));
                        assert(kj != ek);
                        assert(gone.t1.holds_key(kj));
                        assert(self.t1.holds_key(kj));
                    }
                }
            }
        } else {
            let ghost pre = *self;
            proof {
                assert(occ(pre.t2@) >= 1);
            }
            let victim = self.t2.sweep_occupied();
            let ghost swept = *self;
            proof {
                ClockRing::lemma_same_entries_lookup(pre.t2, swept.t2);
            }
            let (ek, _) = self.t2.evict_at(victim);
            let ghost gone = *self;
            proof {
                ClockRing::lemma_update_lookup(swept.t2, gone.t2, victim as int, None);
                assert(swept.t2.holds_key(ek));
                assert(pre.t2.holds_key(ek));
            }
            let ghost mid = *self;
            self.b2.push_back(ek, ());
            proof {
                KeyedList::lemma_push_back_lookup(mid.b2, self.b2, ek, ());
            }
            if self.b2.len() > self.capacity {
                let ghost before = *self;
                let _ = self.b2.pop_front();
                proof {
                    KeyedList::lemma_remove_lookup(before.b2, self.b2, 0);
                }
            }
            proof {
                if exists|m: int|
                    0 <= m < pre.t2@.len() && (#[trigger] pre.t2@[m]) is Some
                        && !pre.t2@[m]->0.referenced {
                    assert(!pre.t2@[victim as int]->0.referenced);
                    assert(ek == pre.t2@[victim as int]->0.key);
                    assert forall|j: int|
                        (0 <= j < pre.t2@.len() && (#[trigger] pre.t2@[j]) is Some
                            && pre.t2@[j]->0.referenced) implies self.cached_lookup(
                        pre.t2@[j]->0.key,
                    ) is Some by {
                        assert(j != victim as int);
                        pre.t2.lemma_slot_unique(j);
                        pre.t2.lemma_slot_unique(victim as int);
                        let kj = pre.t2@[j]->0.key;
                        assert(pre.t2.holds_key(kj));
                        assert(swept.t2.holds_key(kj));
                        assert(kj != ek);
                        assert(gone.t2.holds_key(kj));
                        assert(self.t2.holds_key(kj));
                        assert(!self.t1.holds_key(kj));
                    }
                }
            }
        }
    }

    /// Sweep T2's hand and demote the victim's key into the B2 history,
    /// dropping B2's oldest memory if it outgrows the capacity. Referenced
    /// T2 entries are spared (they only lose their bit).
    fn demote_t2(&mut self)
        requires
            old(self).lists_wf(),
            occ(old(self).t2_slots()) >= 1,
        ensures
            final(self).lists_wf(),
            final(self).spec_cap_field() == old(self).spec_cap_field(),
            final(self).p_target() == old(self).p_target(),
            final(self).pstats() == old(self).pstats(),
            final(self).prefetch_buffer_size == old(self).prefetch_buffer_size,
            final(self).t1_slots() == old(self).t1_slots(),
            final(self).b1_keys() == old(self).b1_keys(),
            occ(final(self).t2_slots()) == occ(old(self).t2_slots()) - 1,
            forall|k2: K| #[trigger] final(self).in_t2(k2) ==> old(self).in_t2(k2),
            forall|k2: K| #[trigger]
                final(self).in_b2(k2) ==> old(self).in_b2(k2) || old(self).in_t2(k2),
            forall|k2: K| #[trigger]
                final(self).cached_lookup(k2) is Some ==> old(self).cached_lookup(k2) == final(self).cached_lookup(k2),
    {
        let ghost pre = *self;
        let victim = self.t2.sweep_occupied();
        let ghost swept = *self;
        proof {
            ClockRing::lemma_same_entries_lookup(pre.t2, swept.t2);
        }
        let (ek, _) = self.t2.evict_at(victim);
        let ghost gone = *self;
        proof {
            ClockRing::lemma_update_lookup(swept.t2, gone.t2, victim as int, None);
            assert(swept.t2.holds_key(ek));
            assert(pre.t2.holds_key(ek));
        }
        let ghost mid = *self;
        self.b2.push_back(ek, ());
        proof {
            KeyedList::lemma_push_back_lookup(mid.b2, self.b2, ek, ());
        }
        if self.b2.len() > self.capacity {
            let ghost before = *self;
            let _ = self.b2.pop_front();
            proof {
                KeyedList::lemma_remove_lookup(before.b2, self.b2, 0);
            }
        }
    }

    /// Install `(key, value)` into an empty T2 slot; one exists whenever T2
    /// is not full.
    fn install_t2(&mut self, key: K, value: V)
        requires
            old(self).lists_wf(),
            occ(old(self).t1_slots()) + occ(old(self).t2_slots()) < old(self).spec_cap_field(),
            !old(self).in_t1(key),
            !old(self).in_t2(key),
            !old(self).in_b1(key),
            !old(self).in_b2(key),
        ensures
            final(self).lists_wf(),
            final(self).spec_cap_field() == old(self).spec_cap_field(),
            final(self).p_target() == old(self).p_target(),
            final(self).prefetch_buffer_size == old(self).prefetch_buffer_size,
            final(self).b1_keys() == old(self).b1_keys(),
            final(self).b2_keys() == old(self).b2_keys(),
            final(self).t1_slots() == old(self).t1_slots(),
            final(self).in_t2(key),
            final(self).cached_lookup(key) == Some(value),
            occ(final(self).t2_slots()) == occ(old(self).t2_slots()) + 1,
            exists|s: int|
                0 <= s < old(self).t2_slots().len() && (#[trigger] old(self).t2_slots()[s]) is None
                    && final(self).t2_slots() == old(self).t2_slots().update(
                    s,
                    Some(RingEntry { key, value, referenced: true }),
                ),
            forall|k2: K|
                k2 != key ==> #[trigger] final(self).cached_lookup(k2) == old(self).cached_lookup(
                    k2,
                ),
            final(self).pstats() == old(self).pstats(),
    {
        let ghost pre = *self;
        match self.t2.find_empty() {
            Some(slot) => {
                self.t2.install(slot, key, value);
                proof {
                    let newe = Some(RingEntry { key, value, referenced: true });
                    ClockRing::lemma_update_lookup(pre.t2, self.t2, slot as int, newe);
                    assert forall|c: K|
                        !(#[trigger] self.t1.holds_key(c) && #[trigger] self.t2.holds_key(c)) by {
                        if c != key {
                            assert(self.t2.holds_key(c) == pre.t2.holds_key(c));
                        }
                    }
                    assert forall|c: K|
                        !(#[trigger] self.t2.holds_key(c) && #[trigger] self.b1.contains_key(
                        c)) by {
                        if c != key {
                            assert(self.t2.holds_key(c) == pre.t2.holds_key(c));
                        }
                    }
                    assert forall|c: K|
                        !(#[trigger] self.t2.holds_key(c) && #[trigger] self.b2.contains_key(
                        c)) by {
                        if c != key {
                            assert(self.t2.holds_key(c) == pre.t2.holds_key(c));
                        }
                    }
                    assert forall|k2: K|
                        k2 != key implies #[trigger] self.cached_lookup(k2) == pre.cached_lookup(
                        k2,
                    ) by {
                        assert(self.t2.holds_key(k2) == pre.t2.holds_key(k2));
                    }
                    assert(self.lists_wf());
                    assert(pre.t2@[slot as int] is None);
                    assert(self.t2@ == pre.t2@.update(
                        slot as int,
                        Some(RingEntry { key, value, referenced: true }),
                    ));
                }
            },
            None => {
                proof {
                    assert(false);
                }
            },
        }
    }
}

impl<K, V, P> CarCache<K, V, P> {
    pub closed spec fn spec_cap_field(&self) -> nat {
        self.capacity as nat
    }
}

impl<K: CacheKey, V, P: PrefetchStrategy<K>> CachePolicy<K, V> for CarCache<K, V, P> {
    closed spec fn inv(&self) -> bool {
        self.wf()
    }

    closed spec fn spec_cap(&self) -> nat {
        self.capacity as nat
    }

    closed spec fn spec_len(&self) -> nat {
        occ(self.t1@) + occ(self.t2@)
    }

    closed spec fn lookup(&self, k: K) -> Option<V> {
        self.cached_lookup(k)
    }

    /// A hit in T2 only sets the entry's reference bit. A hit in T1
    /// promotes the entry into T2, first sweeping T2's hand for room if T2
    /// is full (which may demote one T2 key into the B2 history). The B1
    /// history and the target are untouched.
    fn get(&mut self, key: &K) -> (r: Option<&V>)
        ensures
            final(self).b1_keys() == old(self).b1_keys(),
            final(self).p_target() == old(self).p_target(),
            old(self).lookup(*key) is Some ==> final(self).in_t2(*key),
    {
        let ghost pre = *self;
        match self.t1.position(key) {
            Some(i) => {
                let (k, v) = self.t1.evict_at(i);
                proof {
                    ClockRing::lemma_update_lookup(pre.t1, self.t1, i as int, None);
                    pre.t1.lemma_slot_unique(i as int);
                    assert forall|c: K|
                        !(#[trigger] self.t1.holds_key(c) && #[trigger] self.t2.holds_key(c)) by {
                        if self.t1.holds_key(c) {
                            assert(pre.t1.holds_key(c));
                        }
                    }
                    assert forall|c: K|
                        !(#[trigger] self.t1.holds_key(c) && #[trigger] self.b1.contains_key(
                        c)) by {
                        if self.t1.holds_key(c) {
                            assert(pre.t1.holds_key(c));
                        }
                    }
                    assert forall|c: K|
                        !(#[trigger] self.t1.holds_key(c) && #[trigger] self.b2.contains_key(
                        c)) by {
                        if self.t1.holds_key(c) {
                            assert(pre.t1.holds_key(c));
                        }
                    }
                    assert(self.lists_wf());
                    assert(k == *key);
                }
                let ghost cut = *self;
                if self.t2.len() == self.capacity {
                    self.demote_t2();
                }
                let ghost ready = *self;
                proof {
                    assert(occ(self.t1@) + occ(self.t2@) < self.capacity);
                    assert(!self.in_t1(k));
                    assert(!self.in_t2(k));
                    assert(!self.in_b1(k));
                    assert(!self.in_b2(k));
                }
                self.install_t2(k, v);
                let ghost done = *self;
                let _ = record_prediction_round(&mut self.prefetch_strategy, &mut self.prefetch_stats, key);
                proof {
                    assert forall|k2: K|
                        (#[trigger] self.cached_lookup(k2)) is Some implies self.cached_lookup(k2)
                        == pre.cached_lookup(k2) by {
                        assert(self.cached_lookup(k2) == done.cached_lookup(k2));
                        if k2 == k {
                            assert(done.cached_lookup(k2) == Some(v));
                            assert(pre.cached_lookup(k2) == Some(v));
                        } else {
                            assert(done.cached_lookup(k2) == ready.cached_lookup(k2));
                            if ready.cached_lookup(k2) is Some {
                                assert(ready.cached_lookup(k2) == cut.cached_lookup(k2));
                            }
                            assert(cut.cached_lookup(k2) == pre.cached_lookup(k2));
                        }
                    }
                }
                match self.t2.value_ref(key) {
                    Some(vr) => Some(vr),
                    None => {
                        proof {
                            assert(false);
                        }
                        None
                    },
                }
            },
            None => {
                if self.t2.position(key).is_none() {
                    return None;
                }
                let hit = self.t2.touch(key);
                if hit {
                    proof {
                        let i = pre.t2.slot_of(*key);
                        assert(0 <= i < pre.t2@.len() && pre.t2@[i] is Some && pre.t2@[i]->0.key
                            == *key);
                        let newe = Some(
                            RingEntry {
                                key: pre.t2@[i]->0.key,
                                value: pre.t2@[i]->0.value,
                                referenced: true,
                            },
                        );
                        ClockRing::lemma_update_lookup(pre.t2, self.t2, i, newe);
                        crate::ring::lemma_occ_same(pre.t2@, self.t2@);
                        assert forall|c: K| #[trigger]
                            self.t2.holds_key(c) == pre.t2.holds_key(c) by {
                            if c == *key {
                                assert(self.t2.holds_key(c));
                                assert(pre.t2.holds_key(c));
                            }
                        }
                        assert(self.lists_wf());
                        assert(self.wf());
                    }
                    let ghost done = *self;
                    let _ = record_prediction_round(
                        &mut self.prefetch_strategy,
                        &mut self.prefetch_stats,
                        key,
                    );
                    proof {
                        let i = pre.t2.slot_of(*key);
                        let newe = Some(
                            RingEntry {
                                key: pre.t2@[i]->0.key,
                                value: pre.t2@[i]->0.value,
                                referenced: true,
                            },
                        );
                        assert forall|k2: K|
                            (#[trigger] self.cached_lookup(k2)) is Some implies self.cached_lookup(
                            k2,
                        ) == pre.cached_lookup(k2) by {
                            assert(self.cached_lookup(k2) == done.cached_lookup(k2));
                            if k2 == *key {
                                assert(done.t2@[i] == newe);
                                assert(done.t2.slot_of(k2) == i);
                                assert(done.cached_lookup(k2) == Some(pre.t2@[i]->0.value));
                                assert(pre.cached_lookup(k2) == Some(pre.t2@[i]->0.value));
                            }
                        }
                    }
                    match self.t2.value_ref(key) {
                        Some(vr) => Some(vr),
                        None => {
                            proof {
                                assert(false);
                            }
                            None
                        },
                    }
                } else {
                    proof {
                        assert(false);
                    }
                    None
                }
            },
        }
    }

    /// A cached key's value is updated in place, setting its reference bit.
    /// Ghost hits mirror ARC exactly: a B1 hit raises the target by the
    /// ceiling of |B2|/|B1| (clamped to the capacity), a B2 hit lowers it
    /// by the ceiling of |B1|/|B2| (clamped to zero); the key then enters
    /// T2, after the eviction step if the cache is full. An unseen key makes
    /// ghost room if cache and history together reach the capacity (the
    /// larger history loses its oldest key), evicts if the cache is full,
    /// and enters T1.
    fn insert(&mut self, key: K, value: V)
        ensures
            old(self).in_b1(key) ==> final(self).p_target() == spec_p_after_b1_hit(
                old(self).p_target(),
                old(self).spec_cap(),
                old(self).b1_keys().len(),
                old(self).b2_keys().len(),
            ),
            old(self).in_b2(key) ==> final(self).p_target() == spec_p_after_b2_hit(
                old(self).p_target(),
                old(self).b1_keys().len(),
                old(self).b2_keys().len(),
            ),
            old(self).in_t1(key) || old(self).in_t2(key) || (!old(self).in_b1(key) && !old(self).in_b2(key)) ==> final(self).p_target() == old(self).p_target(),
            old(self).in_b1(key) || old(self).in_b2(key) ==> final(self).in_t2(key) && !final(self).in_b1(key) && !final(self).in_b2(key),
            !old(self).in_t1(key) && !old(self).in_t2(key) && !old(self).in_b1(key) && !old(self).in_b2(key) ==> final(self).in_t1(key),
            final(self).p_target() <= final(self).spec_cap(),
            (!old(self).in_t1(key) && !old(self).in_t2(key) && (old(self).in_b1(key) || old(self).in_b2(key))) ==> ({
                &&& (exists|s: int|
                    0 <= s < final(self).t2_slots().len() && (#[trigger] final(self).t2_slots()[s])
                        == Some(RingEntry { key, value, referenced: true }))
                &&& (old(self).spec_len() == old(self).spec_cap() ==> final(self).spec_len()
                    == old(self).spec_len())
                &&& (old(self).spec_len() < old(self).spec_cap() ==> final(self).spec_len() == old(self).spec_len() + 1)
            }),
            (!old(self).in_t1(key) && !old(self).in_t2(key) && !old(self).in_b1(key) && !old(self).in_b2(key) && old(self).spec_len() == old(self).spec_cap() && (occ(
                old(self).t1_slots(),
            ) >= 1 && (occ(old(self).t1_slots()) > old(self).p_target() || occ(
                old(self).t2_slots(),
            ) == 0)) && (exists|m: int|
                0 <= m < old(self).t1_slots().len() && (#[trigger] old(self).t1_slots()[m]) is Some
                    && !old(self).t1_slots()[m]->0.referenced)) ==> (forall|j: int|
                (0 <= j < old(self).t1_slots().len() && (#[trigger] old(self).t1_slots()[j])
                    is Some && old(self).t1_slots()[j]->0.referenced) ==> final(self).lookup(old(self).t1_slots()[j]->0.key) is Some),
            (!old(self).in_t1(key) && !old(self).in_t2(key) && !old(self).in_b1(key) && !old(self).in_b2(key) && old(self).spec_len() == old(self).spec_cap() && !(occ(
                old(self).t1_slots(),
            ) >= 1 && (occ(old(self).t1_slots()) > old(self).p_target() || occ(
                old(self).t2_slots(),
            ) == 0)) && (exists|m: int|
                0 <= m < old(self).t2_slots().len() && (#[trigger] old(self).t2_slots()[m]) is Some
                    && !old(self).t2_slots()[m]->0.referenced)) ==> (forall|j: int|
                (0 <= j < old(self).t2_slots().len() && (#[trigger] old(self).t2_slots()[j])
                    is Some && old(self).t2_slots()[j]->0.referenced) ==> final(self).lookup(old(self).t2_slots()[j]->0.key) is Some),
    {
        let ghost pre = *self;
        if self.t1.position(&key).is_some() {
            let _ = self.t1.update_value(&key, value);
            proof {
                let i = pre.t1.slot_of(key);
                assert(0 <= i < pre.t1@.len() && pre.t1@[i] is Some && pre.t1@[i]->0.key == key);
                let newe = Some(RingEntry { key: pre.t1@[i]->0.key, value, referenced: true });
                ClockRing::lemma_update_lookup(pre.t1, self.t1, i, newe);
                crate::ring::lemma_occ_same(pre.t1@, self.t1@);
            }
            return ;
        }
        if self.t2.position(&key).is_some() {
            let _ = self.t2.update_value(&key, value);
            proof {
                let i = pre.t2.slot_of(key);
                assert(0 <= i < pre.t2@.len() && pre.t2@[i] is Some && pre.t2@[i]->0.key == key);
                let newe = Some(RingEntry { key: pre.t2@[i]->0.key, value, referenced: true });
                ClockRing::lemma_update_lookup(pre.t2, self.t2, i, newe);
                crate::ring::lemma_occ_same(pre.t2@, self.t2@);
            }
            return ;
        }
        if self.b1.contains(&key) {
            // Recency history hit: grow the target.
            let b1n = self.b1.len();
            let b2n = self.b2.len();
            let ghost hpre = *self;
            let _ = self.b1.remove_key(&key);
            proof {
                let i = hpre.b1.index_of(key);
                assert(0 <= i < hpre.b1@.len() && hpre.b1@[i].0 == key);
                KeyedList::lemma_remove_lookup(hpre.b1, self.b1, i);
            }
            let delta = if b2n == 0 {
                0
            } else {
                (b2n - 1) / b1n + 1
            };
            proof {
                assert(delta == spec_ceil_div(b2n as nat, b1n as nat)) by (nonlinear_arith)
                    requires
                        b1n >= 1,
                        b2n >= 0,
                        delta == if b2n == 0 {
                            0int
                        } else {
                            (b2n - 1) / (b1n as int) + 1
                        },
                ;
            }
            self.p = if delta >= self.capacity - self.p {
                self.capacity
            } else {
                self.p + delta
            };
            let ghost rpre = *self;
            if self.t1.len() + self.t2.len() >= self.capacity {
                self.replace(false);
            }
            proof {
                assert(!rpre.in_t1(key) && !rpre.in_t2(key));
                assert(rpre.cached_lookup(key) is None);
                if self.cached_lookup(key) is Some {
                    assert(self.cached_lookup(key) == rpre.cached_lookup(key));
                }
                assert(!self.in_t1(key) && !self.in_t2(key));
                assert(!self.in_b1(key));
                assert(!self.in_b2(key));
                lemma_occ_le_len(self.t1@);
                assert(occ(self.t1@) + occ(self.t2@) < self.capacity);
            }
            let ghost inst = *self;
            self.install_t2(key, value);
            proof {
                assert forall|k2: K|
                    k2 != key && (#[trigger] self.cached_lookup(k2)) is Some implies
                    self.cached_lookup(k2) == pre.cached_lookup(k2) by {
                    assert(self.cached_lookup(k2) == inst.cached_lookup(k2));
                    if inst.cached_lookup(k2) is Some {
                        assert(inst.cached_lookup(k2) == rpre.cached_lookup(k2));
                    }
                    assert(rpre.cached_lookup(k2) == pre.cached_lookup(k2));
                }
                let s0 = choose|s: int|
                    0 <= s < inst.t2@.len() && (#[trigger] inst.t2@[s]) is None && self.t2@
                        == inst.t2@.update(s, Some(RingEntry { key, value, referenced: true }));
                assert(self.t2@[s0] == Some(RingEntry { key, value, referenced: true }));
            }
            return ;
        }
        if self.b2.contains(&key) {
            // Frequency history hit: shrink the target.
            let b1n = self.b1.len();
            let b2n = self.b2.len();
            let ghost hpre = *self;
            let _ = self.b2.remove_key(&key);
            proof {
                let i = hpre.b2.index_of(key);
                assert(0 <= i < hpre.b2@.len() && hpre.b2@[i].0 == key);
                KeyedList::lemma_remove_lookup(hpre.b2, self.b2, i);
            }
            let delta = if b1n == 0 {
                0
            } else {
                (b1n - 1) / b2n + 1
            };
            proof {
                assert(delta == spec_ceil_div(b1n as nat, b2n as nat)) by (nonlinear_arith)
                    requires
                        b2n >= 1,
                        b1n >= 0,
                        delta == if b1n == 0 {
                            0int
                        } else {
                            (b1n - 1) / (b2n as int) + 1
                        },
                ;
            }
            self.p = if delta >= self.p {
                0
            } else {
                self.p - delta
            };
            let ghost rpre = *self;
            if self.t1.len() + self.t2.len() >= self.capacity {
                self.replace(true);
            }
            proof {
                assert(!rpre.in_t1(key) && !rpre.in_t2(key));
                assert(rpre.cached_lookup(key) is None);
                if self.cached_lookup(key) is Some {
                    assert(self.cached_lookup(key) == rpre.cached_lookup(key));
                }
                assert(!self.in_t1(key) && !self.in_t2(key));
                assert(!self.in_b1(key));
                assert(!self.in_b2(key));
                lemma_occ_le_len(self.t1@);
                assert(occ(self.t1@) + occ(self.t2@) < self.capacity);
            }
            let ghost inst = *self;
            self.install_t2(key, value);
            proof {
                assert forall|k2: K|
                    k2 != key && (#[trigger] self.cached_lookup(k2)) is Some implies
                    self.cached_lookup(k2) == pre.cached_lookup(k2) by {
                    assert(self.cached_lookup(k2) == inst.cached_lookup(k2));
                    if inst.cached_lookup(k2) is Some {
                        assert(inst.cached_lookup(k2) == rpre.cached_lookup(k2));
                    }
                    assert(rpre.cached_lookup(k2) == pre.cached_lookup(k2));
                }
                let s0 = choose|s: int|
                    0 <= s < inst.t2@.len() && (#[trigger] inst.t2@[s]) is None && self.t2@
                        == inst.t2@.update(s, Some(RingEntry { key, value, referenced: true }));
                assert(self.t2@[s0] == Some(RingEntry { key, value, referenced: true }));
            }
            return ;
        }
        // The key is nowhere: a genuinely new entry for T1.
        let total = self.t1.len() + self.t2.len();
        if total < self.capacity {
            let room = self.capacity - total;
            let b1l = self.b1.len();
            let b2l = self.b2.len();
            if b1l >= room || b2l >= room - b1l {
                // Make ghost room, dropping from the larger history.
                if b1l > b2l {
                    let ghost before = *self;
                    let _ = self.b1.pop_front();
                    proof {
                        KeyedList::lemma_remove_lookup(before.b1, self.b1, 0);
                    }
                } else if b2l > 0 {
                    let ghost before = *self;
                    let _ = self.b2.pop_front();
                    proof {
                        KeyedList::lemma_remove_lookup(before.b2, self.b2, 0);
                    }
                }
            }
        } else {
            self.replace(false);
        }
        let ghost mid = *self;
        proof {
            assert(!pre.in_t1(key) && !pre.in_t2(key));
            assert(pre.cached_lookup(key) is None);
            if mid.cached_lookup(key) is Some {
                assert(mid.cached_lookup(key) == pre.cached_lookup(key));
            }
            assert(!mid.in_t1(key) && !mid.in_t2(key));
            assert(!mid.in_b1(key));
            assert(!mid.in_b2(key));
            assert(mid.lists_wf()) by {
                assert forall|c: K|
                    !(#[trigger] mid.t1.holds_key(c) && #[trigger] mid.b1.contains_key(c)) by {
                    if mid.b1.contains_key(c) {
                        assert(mid.in_b1(c));
                        assert(pre.in_b1(c) || pre.in_t1(c));
                    }
                }
                assert forall|c: K|
                    !(#[trigger] mid.t2.holds_key(c) && #[trigger] mid.b2.contains_key(c)) by {
                    if mid.b2.contains_key(c) {
                        assert(mid.in_b2(c));
                        assert(pre.in_b2(c) || pre.in_t2(c));
                    }
                }
            }
            lemma_occ_le_len(mid.t1@);
        }
        match self.t1.find_empty() {
            Some(slot) => {
                let ghost pre2 = *self;
                self.t1.install(slot, key, value);
                proof {
                    let newe = Some(RingEntry { key, value, referenced: true });
                    ClockRing::lemma_update_lookup(pre2.t1, self.t1, slot as int, newe);
                    assert forall|c: K|
                        !(#[trigger] self.t1.holds_key(c) && #[trigger] self.t2.holds_key(c)) by {
                        if c != key {
                            assert(self.t1.holds_key(c) == pre2.t1.holds_key(c));
                        }
                    }
                    assert forall|c: K|
                        !(#[trigger] self.t1.holds_key(c) && #[trigger] self.b1.contains_key(
                        c)) by {
                        if c != key {
                            assert(self.t1.holds_key(c) == pre2.t1.holds_key(c));
                        }
                    }
                    assert forall|c: K|
                        !(#[trigger] self.t1.holds_key(c) && #[trigger] self.b2.contains_key(
                        c)) by {
                        if c != key {
                            assert(self.t1.holds_key(c) == pre2.t1.holds_key(c));
                        }
                    }
                    assert(self.lists_wf());
                    assert(self.wf());
                    assert forall|k2: K|
                        k2 != key && (#[trigger] self.cached_lookup(k2)) is Some implies
                        self.cached_lookup(k2) == pre.cached_lookup(k2) by {
                        assert(self.cached_lookup(k2) == mid.cached_lookup(k2));
                        if mid.cached_lookup(k2) is Some {
                            assert(mid.cached_lookup(k2) == pre.cached_lookup(k2));
                        }
                    }
                    assert forall|k2: K|
                        k2 != key implies #[trigger] self.cached_lookup(k2) == mid.cached_lookup(
                        k2,
                    ) by {
                        assert(self.t1.holds_key(k2) == pre2.t1.holds_key(k2));
                    }
                    if occ(pre.t1@) + occ(pre.t2@) == pre.capacity {
                        if occ(pre.t1@) >= 1 && (occ(pre.t1@) > pre.p || occ(pre.t2@) == 0) {
                            if exists|m: int|
                                0 <= m < pre.t1@.len() && (#[trigger] pre.t1@[m]) is Some
                                    && !pre.t1@[m]->0.referenced {
                                assert forall|j: int|
                                    (0 <= j < pre.t1@.len() && (#[trigger] pre.t1@[j]) is Some
                                        && pre.t1@[j]->0.referenced) implies self.cached_lookup(
                                    pre.t1@[j]->0.key,
                                ) is Some by {
                                    pre.t1.lemma_slot_unique(j);
                                    let kj = pre.t1@[j]->0.key;
                                    assert(kj != key);
                                    assert(mid.cached_lookup(kj) is Some);
                                    assert(self.cached_lookup(kj) == mid.cached_lookup(kj));
                                }
                            }
                        } else {
                            if exists|m: int|
                                0 <= m < pre.t2@.len() && (#[trigger] pre.t2@[m]) is Some
                                    && !pre.t2@[m]->0.referenced {
                                assert forall|j: int|
                                    (0 <= j < pre.t2@.len() && (#[trigger] pre.t2@[j]) is Some
                                        && pre.t2@[j]->0.referenced) implies self.cached_lookup(
                                    pre.t2@[j]->0.key,
                                ) is Some by {
                                    pre.t2.lemma_slot_unique(j);
                                    let kj = pre.t2@[j]->0.key;
                                    assert(kj != key);
                                    assert(mid.cached_lookup(kj) is Some);
                                    assert(self.cached_lookup(kj) == mid.cached_lookup(kj));
                                }
                            }
                        }
                    }
                }
            },
            None => {
                proof {
                    assert(occ(mid.t2@) <= mid.capacity);
                    assert(false);
                }
            },
        }
    }

    /// Removal also purges the key from both ghost histories.
    fn remove(&mut self, key: &K) -> (r: Option<V>)
        ensures
            !final(self).in_b1(*key),
            !final(self).in_b2(*key),
            final(self).p_target() == old(self).p_target(),
    {
        let ghost pre = *self;
        match self.t1.position(key) {
            Some(i) => {
                let (_, v) = self.t1.evict_at(i);
                proof {
                    ClockRing::lemma_update_lookup(pre.t1, self.t1, i as int, None);
                    pre.t1.lemma_slot_unique(i as int);
                }
                return Some(v);
            },
            None => {},
        }
        match self.t2.position(key) {
            Some(i) => {
                let (_, v) = self.t2.evict_at(i);
                proof {
                    ClockRing::lemma_update_lookup(pre.t2, self.t2, i as int, None);
                    pre.t2.lemma_slot_unique(i as int);
                }
                return Some(v);
            },
            None => {},
        }
        let ghost m1 = *self;
        match self.b1.remove_key(key) {
            Some(_) => {
                proof {
                    let i = m1.b1.index_of(*key);
                    assert(0 <= i < m1.b1@.len() && m1.b1@[i].0 == *key);
                    KeyedList::lemma_remove_lookup(m1.b1, self.b1, i);
                }
            },
            None => {
                proof {
                    KeyedList::lemma_same_lookup(m1.b1, self.b1);
                }
            },
        }
        let ghost m2 = *self;
        match self.b2.remove_key(key) {
            Some(_) => {
                proof {
                    let i = m2.b2.index_of(*key);
                    assert(0 <= i < m2.b2@.len() && m2.b2@[i].0 == *key);
                    KeyedList::lemma_remove_lookup(m2.b2, self.b2, i);
                }
            },
            None => {
                proof {
                    KeyedList::lemma_same_lookup(m2.b2, self.b2);
                }
            },
        }
        None
    }

    fn len(&self) -> (r: usize) {
        proof {
            assert(self.wf());
        }
        let r = self.t1.len() + self.t2.len();
        proof {
            assert(r as nat == self.spec_len());
            assert(r as nat <= self.spec_cap());
        }
        r
    }

    /// Everything is released: both rings, both histories, and the target
    /// returns to zero.
    fn clear(&mut self)
        ensures
            final(self).p_target() == 0,
            forall|i: int|
                0 <= i < final(self).t1_slots().len() ==> (#[trigger] final(self).t1_slots()[i])
                    is None,
            forall|i: int|
                0 <= i < final(self).t2_slots().len() ==> (#[trigger] final(self).t2_slots()[i])
                    is None,
            final(self).b1_keys().len() == 0,
            final(self).b2_keys().len() == 0,
    {
        self.t1.clear();
        self.t2.clear();
        self.b1.clear();
        self.b2.clear();
        self.p = 0;
        proof {
            assert(forall|k2: K| !self.b1.contains_key(k2));
            assert(forall|k2: K| !self.b2.contains_key(k2));
        }
    }

    fn capacity(&self) -> (r: usize) {
        self.capacity
    }
}

} // verus!
