//! Adaptive Replacement Cache: four lists share the work. T1 holds keys seen
//! once recently, T2 keys proven frequent, and B1/B2 remember only the keys
//! lately evicted from T1 and T2. The target size `p` of T1 moves on every
//! ghost hit: a B1 hit says recency deserves more room, a B2 hit the
//! opposite. Eviction demotes the tail of whichever list exceeds its share.

use vstd::prelude::*;
use crate::{CacheKey, CachePolicy, PrefetchStrategy};
use crate::keylist::KeyedList;
use crate::prefetch::NoPrefetch;
use super::{record_prediction_round, PrefetchStats};

verus! {

/// The ceiling of `a / b` (meaningful for `b >= 1`).
pub open spec fn spec_ceil_div(a: nat, b: nat) -> nat {
    ((a + b - 1) as nat) / b
}

/// The target raised by a B1 ghost hit, clamped to the capacity.
pub open spec fn spec_p_after_b1_hit(p: nat, cap: nat, b1: nat, b2: nat) -> nat {
    if p + spec_ceil_div(b2, b1) >= cap {
        cap
    } else {
        p + spec_ceil_div(b2, b1)
    }
}

/// The target lowered by a B2 ghost hit, clamped to zero.
pub open spec fn spec_p_after_b2_hit(p: nat, b1: nat, b2: nat) -> nat {
    if spec_ceil_div(b1, b2) >= p {
        0
    } else {
        (p - spec_ceil_div(b1, b2)) as nat
    }
}

/// A B1 ghost hit strictly raises the target whenever the target is not yet
/// clamped at the capacity and the opposite history is not empty, and never
/// lowers it nor pushes it past the capacity; a B2 ghost hit symmetrically
/// strictly lowers the target whenever it is not already zero and the
/// opposite history is not empty, and never pushes it below zero.
pub proof fn lemma_adaptation_moves_p(p: nat, cap: nat, b1: nat, b2: nat)
    requires
        p <= cap,
        b1 >= 1,
        b2 >= 1,
    ensures
        spec_p_after_b1_hit(p, cap, b1, b2) >= p,
        spec_p_after_b1_hit(p, cap, b1, b2) <= cap,
        p < cap ==> spec_p_after_b1_hit(p, cap, b1, b2) > p,
        spec_p_after_b2_hit(p, b1, b2) <= p,
        p > 0 ==> spec_p_after_b2_hit(p, b1, b2) < p,
{
    assert(spec_ceil_div(b2, b1) >= 1) by (nonlinear_arith)
        requires
            b1 >= 1,
            b2 >= 1,
    ;
    assert(spec_ceil_div(b1, b2) >= 1) by (nonlinear_arith)
        requires
            b1 >= 1,
            b2 >= 1,
    ;
}

/// A fixed-capacity ARC cache with an attached prediction strategy.
pub struct ArcCache<K, V, P = NoPrefetch> {
    t1: KeyedList<K, V>,
    t2: KeyedList<K, V>,
    b1: KeyedList<K, ()>,
    b2: KeyedList<K, ()>,
    p: usize,
    capacity: usize,
    prefetch_strategy: P,
    prefetch_buffer_size: usize,
    prefetch_stats: PrefetchStats,
}

impl<K, V, P> ArcCache<K, V, P> {
    /// The recency list, most recent first.
    pub closed spec fn t1_order(&self) -> Seq<(K, V)> {
        self.t1@
    }

    /// The frequency list, most recent first.
    pub closed spec fn t2_order(&self) -> Seq<(K, V)> {
        self.t2@
    }

    /// The keys remembered after eviction from T1, oldest first.
    pub closed spec fn b1_keys(&self) -> Seq<K> {
        self.b1.key_seq()
    }

    /// The keys remembered after eviction from T2, oldest first.
    pub closed spec fn b2_keys(&self) -> Seq<K> {
        self.b2.key_seq()
    }

    pub closed spec fn in_t1(&self, k: K) -> bool {
        self.t1.contains_key(k)
    }

    pub closed spec fn in_t2(&self, k: K) -> bool {
        self.t2.contains_key(k)
    }

    pub closed spec fn in_b1(&self, k: K) -> bool {
        self.b1.contains_key(k)
    }

    pub closed spec fn in_b2(&self, k: K) -> bool {
        self.b2.contains_key(k)
    }

    /// Where `k` sits in the recency list (meaningful when present).
    pub closed spec fn t1_index_of(&self, k: K) -> int {
        self.t1.index_of(k)
    }

    /// Where `k` sits in the frequency list (meaningful when present).
    pub closed spec fn t2_index_of(&self, k: K) -> int {
        self.t2.index_of(k)
    }

    /// The self-tuned target size of T1, always within `[0, capacity]`.
    pub closed spec fn p_target(&self) -> nat {
        self.p as nat
    }

    /// The prediction counters.
    pub closed spec fn pstats(&self) -> PrefetchStats {
        self.prefetch_stats
    }

    /// The four lists are separately well-formed, pairwise disjoint, and
    /// within their bounds.
    pub closed spec fn lists_wf(&self) -> bool {
        &&& self.t1.wf()
        &&& self.t2.wf()
        &&& self.b1.wf()
        &&& self.b2.wf()
        &&& self.capacity >= 1
        &&& self.t1@.len() + self.t2@.len() <= self.capacity
        &&& self.b1@.len() <= self.capacity
        &&& self.b2@.len() <= self.capacity
        &&& forall|k: K|
            !(#[trigger] self.t1.contains_key(k) && #[trigger] self.t2.contains_key(k))
        &&& forall|k: K|
            !(#[trigger] self.t1.contains_key(k) && #[trigger] self.b1.contains_key(k))
        &&& forall|k: K|
            !(#[trigger] self.t1.contains_key(k) && #[trigger] self.b2.contains_key(k))
        &&& forall|k: K|
            !(#[trigger] self.t2.contains_key(k) && #[trigger] self.b1.contains_key(k))
        &&& forall|k: K|
            !(#[trigger] self.t2.contains_key(k) && #[trigger] self.b2.contains_key(k))
        &&& forall|k: K|
            !(#[trigger] self.b1.contains_key(k) && #[trigger] self.b2.contains_key(k))
    }

    pub closed spec fn wf(&self) -> bool {
        &&& self.lists_wf()
        &&& self.p <= self.capacity
        &&& self.prefetch_buffer_size >= 1
    }
}

impl<K: CacheKey, V> ArcCache<K, V, NoPrefetch> {
    /// Create an ARC cache that holds at most `capacity` entries, with the
    /// no-op prediction strategy.
    pub fn new(capacity: usize) -> (r: Self)
        requires
            capacity >= 1,
        ensures
            r.inv(),
            r.spec_cap() == capacity,
            r.spec_len() == 0,
            r.t1_order().len() == 0,
            r.t2_order().len() == 0,
            r.b1_keys().len() == 0,
            r.b2_keys().len() == 0,
            forall|k: K| #[trigger] r.lookup(k) is None,
            r.p_target() == 0,
            r.pstats().is_zero(),
    {
        Self::with_custom_prefetch(capacity, NoPrefetch)
    }
}

impl<K: CacheKey, V, P: PrefetchStrategy<K>> ArcCache<K, V, P> {
    /// Create an ARC cache that consults the given prediction strategy.
    pub fn with_custom_prefetch(capacity: usize, prefetch_strategy: P) -> (r: Self)
        requires
            capacity >= 1,
        ensures
            r.inv(),
            r.spec_cap() == capacity,
            r.spec_len() == 0,
            r.t1_order().len() == 0,
            r.t2_order().len() == 0,
            r.b1_keys().len() == 0,
            r.b2_keys().len() == 0,
            forall|k: K| #[trigger] r.lookup(k) is None,
            r.p_target() == 0,
            r.pstats().is_zero(),
    {
        let buf = if capacity / 4 >= 1 {
            capacity / 4
        } else {
            1
        };
        let r = ArcCache {
            t1: KeyedList::new(),
            t2: KeyedList::new(),
            b1: KeyedList::new(),
            b2: KeyedList::new(),
            p: 0,
            capacity,
            prefetch_strategy,
            prefetch_buffer_size: buf,
            prefetch_stats: PrefetchStats::default(),
        };
        proof {
            assert(forall|k: K| !r.t1.contains_key(k));
            assert(forall|k: K| !r.t2.contains_key(k));
            assert(forall|k: K| !r.b1.contains_key(k));
            assert(forall|k: K| !r.b2.contains_key(k));
        }
        r
    }

    /// What `lookup` returns is exactly the association T1 and T2 together
    /// publish: T1 is consulted first, then T2.
    pub proof fn lemma_lookup_over_lists(&self)
        requires
            self.inv(),
        ensures
            self.spec_len() == self.t1_order().len() + self.t2_order().len(),
            forall|k: K| #[trigger]
                self.lookup(k) == (if crate::keylist::seq_contains_key(self.t1_order(), k) {
                    crate::keylist::seq_lookup(self.t1_order(), k)
                } else {
                    crate::keylist::seq_lookup(self.t2_order(), k)
                }),
            forall|k: K| #[trigger]
                crate::keylist::seq_contains_key(self.t1_order(), k) ==> 0 <= self.t1_index_of(k)
                    < self.t1_order().len() && self.t1_order()[self.t1_index_of(k)].0 == k
                    && self.lookup(k) == Some(self.t1_order()[self.t1_index_of(k)].1),
            forall|k: K| #[trigger]
                crate::keylist::seq_contains_key(self.t2_order(), k) ==> 0 <= self.t2_index_of(k)
                    < self.t2_order().len() && self.t2_order()[self.t2_index_of(k)].0 == k && (
                !crate::keylist::seq_contains_key(self.t1_order(), k) ==> self.lookup(k) == Some(
                    self.t2_order()[self.t2_index_of(k)].1,
                )),
            forall|k: K| #[trigger]
                self.in_t1(k) == crate::keylist::seq_contains_key(self.t1_order(), k),
            forall|k: K| #[trigger]
                self.in_t2(k) == crate::keylist::seq_contains_key(self.t2_order(), k),
            forall|k: K| #[trigger] self.in_b1(k) == self.b1_keys().contains(k),
            forall|k: K| #[trigger] self.in_b2(k) == self.b2_keys().contains(k),
    {
        self.t1.lemma_lookup_matches_seq();
        self.t2.lemma_lookup_matches_seq();
        assert forall|k: K| #[trigger]
            self.in_t1(k) == crate::keylist::seq_contains_key(self.t1@, k) by {
            if self.t1.contains_key(k) {
                let i = self.t1.index_of(k);
                assert(0 <= i < self.t1@.len() && self.t1@[i].0 == k);
                assert(crate::keylist::seq_contains_key(self.t1@, k));
            } else {
                if crate::keylist::seq_contains_key(self.t1@, k) {
                    let i = crate::keylist::seq_index_of(self.t1@, k);
                    assert(0 <= i < self.t1@.len() && self.t1@[i].0 == k);
                    assert(self.t1.contains_key(k));
                }
            }
        }
        assert forall|k: K| #[trigger]
            self.in_t2(k) == crate::keylist::seq_contains_key(self.t2@, k) by {
            if self.t2.contains_key(k) {
                let i = self.t2.index_of(k);
                assert(0 <= i < self.t2@.len() && self.t2@[i].0 == k);
                assert(crate::keylist::seq_contains_key(self.t2@, k));
            } else {
                if crate::keylist::seq_contains_key(self.t2@, k) {
                    let i = crate::keylist::seq_index_of(self.t2@, k);
                    assert(0 <= i < self.t2@.len() && self.t2@[i].0 == k);
                    assert(self.t2.contains_key(k));
                }
            }
        }
        assert forall|k: K| #[trigger] self.in_b1(k) == self.b1_keys().contains(k) by {
            if self.b1.contains_key(k) {
                let i = self.b1.index_of(k);
                assert(0 <= i < self.b1@.len() && self.b1@[i].0 == k);
                assert(self.b1_keys()[i] == k);
                assert(self.b1_keys().contains(k));
            } else {
                if self.b1_keys().contains(k) {
                    let i = choose|i: int| 0 <= i < self.b1_keys().len() && self.b1_keys()[i] == k;
                    assert(self.b1@[i].0 == k);
                    assert(self.b1.contains_key(k));
                }
            }
        }
        assert forall|k: K| #[trigger] self.in_b2(k) == self.b2_keys().contains(k) by {
            if self.b2.contains_key(k) {
                let i = self.b2.index_of(k);
                assert(0 <= i < self.b2@.len() && self.b2@[i].0 == k);
                assert(self.b2_keys()[i] == k);
                assert(self.b2_keys().contains(k));
            } else {
                if self.b2_keys().contains(k) {
                    let i = choose|i: int| 0 <= i < self.b2_keys().len() && self.b2_keys()[i] == k;
                    assert(self.b2@[i].0 == k);
                    assert(self.b2.contains_key(k));
                }
            }
        }
        assert forall|k: K| #[trigger]
            crate::keylist::seq_contains_key(self.t1@, k) implies 0 <= self.t1_index_of(k) < self.t1@.len()
            && self.t1@[self.t1_index_of(k)].0 == k && self.lookup(k) == Some(
            self.t1@[self.t1_index_of(k)].1) by {
            let i1 = crate::keylist::seq_index_of(self.t1@, k);
            assert(0 <= i1 < self.t1@.len() && self.t1@[i1].0 == k);
            assert(self.t1.contains_key(k));
            let i0 = self.t1.index_of(k);
            assert(0 <= i0 < self.t1@.len() && self.t1@[i0].0 == k);
        }
        assert forall|k: K| #[trigger]
            crate::keylist::seq_contains_key(self.t2@, k) implies 0 <= self.t2_index_of(k) < self.t2@.len()
            && self.t2@[self.t2_index_of(k)].0 == k && (!crate::keylist::seq_contains_key(self.t1@, k)
            ==> self.lookup(k) == Some(self.t2@[self.t2_index_of(k)].1)) by {
            let i1 = crate::keylist::seq_index_of(self.t2@, k);
            assert(0 <= i1 < self.t2@.len() && self.t2@[i1].0 == k);
            assert(self.t2.contains_key(k));
            let i0 = self.t2.index_of(k);
            assert(0 <= i0 < self.t2@.len() && self.t2@[i0].0 == k);
            if !crate::keylist::seq_contains_key(self.t1@, k) {
                if self.t1.contains_key(k) {
                    let j = self.t1.index_of(k);
                    assert(0 <= j < self.t1@.len() && self.t1@[j].0 == k);
                    assert(crate::keylist::seq_contains_key(self.t1@, k));
                }
            }
        }

        assert forall|k: K| #[trigger]
            self.lookup(k) == (if crate::keylist::seq_contains_key(self.t1_order(), k) {
                crate::keylist::seq_lookup(self.t1_order(), k)
            } else {
                crate::keylist::seq_lookup(self.t2_order(), k)
            }) by {
            assert(self.t1.lookup(k) == crate::keylist::seq_lookup(self.t1@, k));
            assert(self.t2.lookup(k) == crate::keylist::seq_lookup(self.t2@, k));
            if self.t1.contains_key(k) {
                let i = self.t1.index_of(k);
                assert(0 <= i < self.t1@.len() && self.t1@[i].0 == k);
                assert(crate::keylist::seq_contains_key(self.t1@, k));
            } else {
                if crate::keylist::seq_contains_key(self.t1@, k) {
                    let i = crate::keylist::seq_index_of(self.t1@, k);
                    assert(0 <= i < self.t1@.len() && self.t1@[i].0 == k);
                    assert(self.t1.contains_key(k));
                }
            }
        }
    }

    /// The prediction counters so far.
    pub fn prefetch_stats(&self) -> (r: &PrefetchStats)
        ensures
            *r == self.pstats(),
    {
        &self.prefetch_stats
    }

    /// Zero the prediction counters and reset the strategy; cached entries,
    /// histories and the target are untouched.
    pub fn reset_prefetch_stats(&mut self)
        requires
            old(self).inv(),
        ensures
            final(self).inv(),
            final(self).pstats().is_zero(),
            final(self).t1_order() == old(self).t1_order(),
            final(self).t2_order() == old(self).t2_order(),
            final(self).b1_keys() == old(self).b1_keys(),
            final(self).b2_keys() == old(self).b2_keys(),
            final(self).p_target() == old(self).p_target(),
            final(self).spec_cap() == old(self).spec_cap(),
    {
        self.prefetch_stats = PrefetchStats::default();
        self.prefetch_strategy.reset();
    }

    /// The eviction step: demote the tail of T1 into the B1 history when T1
    /// exceeds its target (or matches it on a B2 hit, or is the only
    /// non-empty list); otherwise demote the tail of T2 into B2. A history
    /// that outgrows the capacity loses its oldest key. When both lists are
    /// empty nothing happens.
    fn replace(&mut self, in_b2: bool)
        requires
            old(self).lists_wf(),
        ensures
            final(self).lists_wf(),
            final(self).capacity_field() == old(self).capacity_field(),
            final(self).p_target() == old(self).p_target(),
            final(self).pstats() == old(self).pstats(),
            final(self).prefetch_buffer_size == old(self).prefetch_buffer_size,
            old(self).t1_order().len() + old(self).t2_order().len() == 0 ==> final(self).t1_order()
                == old(self).t1_order() && final(self).t2_order() == old(self).t2_order() && final(self).b1_keys() == old(self).b1_keys() && final(self).b2_keys() == old(self).b2_keys(),
            old(self).t1_order().len() + old(self).t2_order().len() > 0 ==> final(self).t1_order().len() + final(self).t2_order().len() == old(self).t1_order().len() + old(self).t2_order().len() - 1,
            forall|k: K| #[trigger]
                final(self).cached_lookup(k) is Some ==> old(self).cached_lookup(k) == final(self).cached_lookup(k),
            forall|k: K|
                (#[trigger] old(self).in_b1(k) || #[trigger] old(self).in_b2(k)) ==> !final(self).in_t1(k) && !final(self).in_t2(k),
            forall|k: K| #[trigger] final(self).in_b1(k) ==> old(self).in_b1(k) || old(self).in_t1(k),
            forall|k: K| #[trigger] final(self).in_b2(k) ==> old(self).in_b2(k) || old(self).in_t2(k),
            (old(self).t1_order().len() >= 1 && ((in_b2 && old(self).t1_order().len() == old(self).p_target()) || old(self).t1_order().len() > old(self).p_target() || old(self).t2_order().len() == 0)) ==> final(self).t1_order() == old(self).t1_order().drop_last() && final(self).t2_order() == old(self).t2_order() && final(self).b2_keys() == old(self).b2_keys() && final(self).b1_keys() == (if old(self).b1_keys().len() < old(self).capacity_field() {
                old(self).b1_keys().push(old(self).t1_order().last().0)
            } else {
                old(self).b1_keys().push(old(self).t1_order().last().0).drop_first()
            }),
            (!(old(self).t1_order().len() >= 1 && ((in_b2 && old(self).t1_order().len() == old(self).p_target()) || old(self).t1_order().len() > old(self).p_target() || old(self).t2_order().len() == 0)) && old(self).t2_order().len() >= 1) ==> final(self).t2_order() == old(self).t2_order().drop_last() && final(self).t1_order() == old(self).t1_order() && final(self).b1_keys() == old(self).b1_keys() && final(self).b2_keys()
                == (if old(self).b2_keys().len() < old(self).capacity_field() {
                old(self).b2_keys().push(old(self).t2_order().last().0)
            } else {
                old(self).b2_keys().push(old(self).t2_order().last().0).drop_first()
            }),
    {
        let t1n = self.t1.len();
        let t2n = self.t2.len();
        if t1n == 0 && t2n == 0 {
            return ;
        }
        let take_t1 = t1n >= 1 && ((in_b2 && t1n == self.p) || t1n > self.p || t2n == 0);
        if take_t1 {
            let ghost pre = *self;
            let e = self.t1.pop_back();
            match e {
                Some((k, _)) => {
                    proof {
                        KeyedList::lemma_remove_lookup(pre.t1, self.t1, pre.t1@.len() - 1);
                        pre.t1.lemma_index_unique(pre.t1@.len() - 1);
                    }
                    let ghost mid = *self;
                    self.b1.push_back(k, ());
                    proof {
                        KeyedList::lemma_push_back_lookup(mid.b1, self.b1, k, ());
                        assert(self.b1.key_seq() =~= mid.b1.key_seq().push(k));
                    }
                    if self.b1.len() > self.capacity {
                        let ghost before = *self;
                        let _ = self.b1.pop_front();
                        proof {
                            KeyedList::lemma_remove_lookup(before.b1, self.b1, 0);
                            assert(self.b1.key_seq() =~= before.b1.key_seq().drop_first());
                            assert(self.b1.key_seq() =~= mid.b1.key_seq().push(k).drop_first());
                        }
                    }
                },
                None => {
                    proof {
                        assert(false);
                    }
                },
            }
        } else {
            let ghost pre = *self;
            let e = self.t2.pop_back();
            match e {
                Some((k, _)) => {
                    proof {
                        KeyedList::lemma_remove_lookup(pre.t2, self.t2, pre.t2@.len() - 1);
                        pre.t2.lemma_index_unique(pre.t2@.len() - 1);
                    }
                    let ghost mid = *self;
                    self.b2.push_back(k, ());
                    proof {
                        KeyedList::lemma_push_back_lookup(mid.b2, self.b2, k, ());
                        assert(self.b2.key_seq() =~= mid.b2.key_seq().push(k));
                    }
                    if self.b2.len() > self.capacity {
                        let ghost before = *self;
                        let _ = self.b2.pop_front();
                        proof {
                            KeyedList::lemma_remove_lookup(before.b2, self.b2, 0);
                            assert(self.b2.key_seq() =~= before.b2.key_seq().drop_first());
                            assert(self.b2.key_seq() =~= mid.b2.key_seq().push(k).drop_first());
                        }
                    }
                },
                None => {
                    proof {
                        assert(false);
                    }
                },
            }
        }
    }
}

impl<K, V, P> ArcCache<K, V, P> {
    /// What T1 and T2 together cache under `k`.
    pub closed spec fn cached_lookup(&self, k: K) -> Option<V> {
        if self.t1.contains_key(k) {
            self.t1.lookup(k)
        } else {
            self.t2.lookup(k)
        }
    }

    pub closed spec fn capacity_field(&self) -> nat {
        self.capacity as nat
    }
}

impl<K: CacheKey, V, P: PrefetchStrategy<K>> CachePolicy<K, V> for ArcCache<K, V, P> {
    closed spec fn inv(&self) -> bool {
        self.wf()
    }

    closed spec fn spec_cap(&self) -> nat {
        self.capacity as nat
    }

    closed spec fn spec_len(&self) -> nat {
        self.t1@.len() + self.t2@.len()
    }

    closed spec fn lookup(&self, k: K) -> Option<V> {
        self.cached_lookup(k)
    }

    /// A hit in T1 promotes the entry to the front of T2: a second access
    /// proves frequency. A hit in T2 moves the entry to the front of T2. The
    /// histories and the target are untouched.
    fn get(&mut self, key: &K) -> (r: Option<&V>)
        ensures
            old(self).in_t1(*key) ==> final(self).t2_order() == seq![
                (*key, old(self).t1_order()[old(self).t1_index_of(*key)].1),
            ] + old(self).t2_order(),
            old(self).in_t2(*key) ==> final(self).t2_order() == seq![
                (*key, old(self).t2_order()[old(self).t2_index_of(*key)].1),
            ] + old(self).t2_order().remove(old(self).t2_index_of(*key)),
            final(self).b1_keys() == old(self).b1_keys(),
            final(self).b2_keys() == old(self).b2_keys(),
            final(self).p_target() == old(self).p_target(),
    {
        let ghost pre = *self;
        match self.t1.remove_key(key) {
            Some((k, v)) => {
                proof {
                    let i = pre.t1.index_of(*key);
                    assert(0 <= i < pre.t1@.len() && pre.t1@[i].0 == *key);
                    pre.t1.lemma_index_unique(i);
                    KeyedList::lemma_remove_lookup(pre.t1, self.t1, i);
                }
                let ghost mid = *self;
                self.t2.push_front(k, v);
                proof {
                    KeyedList::lemma_push_front_lookup(mid.t2, self.t2, k, v);
                    assert(k == *key);
                }
                let _ = record_prediction_round(&mut self.prefetch_strategy, &mut self.prefetch_stats, key);
                match self.t2.get_ref(key) {
                    Some(vr) => Some(vr),
                    None => {
                        proof {
                            assert(false);
                        }
                        None
                    },
                }
            },
            None => {
                proof {
                    KeyedList::lemma_same_lookup(pre.t1, self.t1);
                }
                match self.t2.remove_key(key) {
                    Some((k, v)) => {
                        proof {
                            let i = pre.t2.index_of(*key);
                            assert(0 <= i < pre.t2@.len() && pre.t2@[i].0 == *key);
                            pre.t2.lemma_index_unique(i);
                            KeyedList::lemma_remove_lookup(pre.t2, self.t2, i);
                        }
                        let ghost mid = *self;
                        self.t2.push_front(k, v);
                        proof {
                            KeyedList::lemma_push_front_lookup(mid.t2, self.t2, k, v);
                            assert(k == *key);
                        }
                        let _ = record_prediction_round(
                            &mut self.prefetch_strategy,
                            &mut self.prefetch_stats,
                            key,
                        );
                        match self.t2.get_ref(key) {
                            Some(vr) => Some(vr),
                            None => {
                                proof {
                                    assert(false);
                                }
                                None
                            },
                        }
                    },
                    None => {
                        proof {
                            KeyedList::lemma_same_lookup(pre.t2, self.t2);
                        }
                        None
                    },
                }
            },
        }
    }

    /// A cached key's value is updated in place. A B1 ghost hit raises the
    /// target by the ceiling of |B2|/|B1| (clamped to the capacity), runs
    /// the eviction step, and installs the key at the front of T2; a B2
    /// ghost hit symmetrically lowers the target by the ceiling of |B1|/|B2|
    /// (clamped to zero). An unseen key first makes ghost room when cache
    /// and history together reach the capacity, evicts if the cache itself
    /// is full, and joins the front of T1.
    fn insert(&mut self, key: K, value: V)
        ensures
            old(self).in_b1(key) ==> final(self).p_target() == spec_p_after_b1_hit(
                old(self).p_target(),
                old(self).spec_cap(),
                old(self).b1_keys().len(),
                old(self).b2_keys().len(),
            ),
            old(self).in_b2(key) ==> final(self).p_target() == spec_p_after_b2_hit(
                old(self).p_target(),
                old(self).b1_keys().len(),
                old(self).b2_keys().len(),
            ),
            old(self).in_t1(key) || old(self).in_t2(key) || (!old(self).in_b1(key) && !old(self).in_b2(key)) ==> final(self).p_target() == old(self).p_target(),
            old(self).in_b1(key) || old(self).in_b2(key) ==> final(self).in_t2(key) && !final(self).in_b1(key) && !final(self).in_b2(key),
            !old(self).in_t1(key) && !old(self).in_t2(key) && !old(self).in_b1(key) && !old(self).in_b2(key) ==> final(self).in_t1(key),
            final(self).p_target() <= final(self).spec_cap(),
            (!old(self).in_t1(key) && !old(self).in_t2(key) && (old(self).in_b1(key) || old(self).in_b2(key))) ==> ({
                let p2 = if old(self).in_b1(key) {
                    spec_p_after_b1_hit(
                        old(self).p_target(),
                        old(self).spec_cap(),
                        old(self).b1_keys().len(),
                        old(self).b2_keys().len(),
                    )
                } else {
                    spec_p_after_b2_hit(
                        old(self).p_target(),
                        old(self).b1_keys().len(),
                        old(self).b2_keys().len(),
                    )
                };
                let take_t1 = old(self).t1_order().len() >= 1 && ((old(self).in_b2(key) && old(self).t1_order().len() == p2) || old(self).t1_order().len() > p2 || old(self).t2_order().len() == 0);
                &&& take_t1 ==> final(self).t2_order() == seq![(key, value)] + old(self).t2_order() && final(self).t1_order() == old(self).t1_order().drop_last()
                &&& (!take_t1 && old(self).t2_order().len() >= 1) ==> final(self).t2_order()
                    == seq![(key, value)] + old(self).t2_order().drop_last() && final(self).t1_order() == old(self).t1_order()
                &&& (old(self).t1_order().len() + old(self).t2_order().len() == 0) ==> final(self).t2_order() == seq![(key, value)] && final(self).t1_order() == old(self).t1_order()
                &&& (old(self).spec_len() >= 1 ==> final(self).spec_len() == old(self).spec_len())
                &&& (old(self).spec_len() == 0 ==> final(self).spec_len() == 1)
            }),
    {
        let ghost pre = *self;
        if self.t1.contains(&key) {
            let _ = self.t1.set_value(&key, value);
            proof {
                assert(forall|k2: K| #[trigger]
                    self.t1.contains_key(k2) == pre.t1.contains_key(k2));
            }
            return ;
        }
        if self.t2.contains(&key) {
            let _ = self.t2.set_value(&key, value);
            proof {
                assert(forall|k2: K| #[trigger]
                    self.t2.contains_key(k2) == pre.t2.contains_key(k2));
            }
            return ;
        }
        if self.b1.contains(&key) {
            // Recency history hit: grow the target.
            let b1n = self.b1.len();
            let b2n = self.b2.len();
            let ghost hpre = *self;
            let _ = self.b1.remove_key(&key);
            proof {
                let i = hpre.b1.index_of(key);
                assert(0 <= i < hpre.b1@.len() && hpre.b1@[i].0 == key);
                KeyedList::lemma_remove_lookup(hpre.b1, self.b1, i);
            }
            let delta = if b2n == 0 {
                0
            } else {
                (b2n - 1) / b1n + 1
            };
            proof {
                assert(delta == spec_ceil_div(b2n as nat, b1n as nat)) by (nonlinear_arith)
                    requires
                        b1n >= 1,
                        b2n >= 0,
                        delta == if b2n == 0 {
                            0int
                        } else {
                            (b2n - 1) / (b1n as int) + 1
                        },
                ;
            }
            self.p = if delta >= self.capacity - self.p {
                self.capacity
            } else {
                self.p + delta
            };
            let ghost mid = *self;
            self.replace(false);
            let ghost mid2 = *self;
            proof {
                assert(!mid.in_t1(key) && !mid.in_t2(key));
                assert(mid.cached_lookup(key) is None);
                if mid2.cached_lookup(key) is Some {
                    assert(mid.cached_lookup(key) == mid2.cached_lookup(key));
                }
                assert(!mid2.in_t1(key) && !mid2.in_t2(key));
                assert(!self.t2.contains_key(key));
                assert(!mid2.in_b1(key));
                assert(!mid2.in_b2(key));
            }
            self.t2.push_front(key, value);
            proof {
                KeyedList::lemma_push_front_lookup(mid2.t2, self.t2, key, value);
                assert forall|c: K|
                    !(#[trigger] self.t1.contains_key(c) && #[trigger] self.t2.contains_key(
                    c)) by {
                    if c != key {
                        assert(self.t2.contains_key(c) == mid2.t2.contains_key(c));
                    }
                }
                assert forall|c: K|
                    !(#[trigger] self.t2.contains_key(c) && #[trigger] self.b1.contains_key(
                    c)) by {
                    if c != key {
                        assert(self.t2.contains_key(c) == mid2.t2.contains_key(c));
                    }
                }
                assert forall|c: K|
                    !(#[trigger] self.t2.contains_key(c) && #[trigger] self.b2.contains_key(
                    c)) by {
                    if c != key {
                        assert(self.t2.contains_key(c) == mid2.t2.contains_key(c));
                    }
                }
                assert forall|k2: K|
                    k2 != key && (#[trigger] self.cached_lookup(k2)) is Some implies
                    self.cached_lookup(k2) == pre.cached_lookup(k2) by {
                    assert(self.t2.lookup(k2) == mid2.t2.lookup(k2));
                    assert(self.cached_lookup(k2) == mid2.cached_lookup(k2));
                    if mid2.cached_lookup(k2) is Some {
                        assert(mid2.cached_lookup(k2) == mid.cached_lookup(k2));
                    }
                    assert(mid.cached_lookup(k2) == pre.cached_lookup(k2));
                }
                assert(self.prefetch_buffer_size == old(self).prefetch_buffer_size);
                assert(self.wf());
            }
            return ;
        }
        if self.b2.contains(&key) {
            // Frequency history hit: shrink the target.
            let b1n = self.b1.len();
            let b2n = self.b2.len();
            let ghost hpre = *self;
            let _ = self.b2.remove_key(&key);
            proof {
                let i = hpre.b2.index_of(key);
                assert(0 <= i < hpre.b2@.len() && hpre.b2@[i].0 == key);
                KeyedList::lemma_remove_lookup(hpre.b2, self.b2, i);
            }
            let delta = if b1n == 0 {
                0
            } else {
                (b1n - 1) / b2n + 1
            };
            proof {
                assert(delta == spec_ceil_div(b1n as nat, b2n as nat)) by (nonlinear_arith)
                    requires
                        b2n >= 1,
                        b1n >= 0,
                        delta == if b1n == 0 {
                            0int
                        } else {
                            (b1n - 1) / (b2n as int) + 1
                        },
                ;
            }
            self.p = if delta >= self.p {
                0
            } else {
                self.p - delta
            };
            let ghost mid = *self;
            self.replace(true);
            let ghost mid2 = *self;
            proof {
                assert(!mid.in_t1(key) && !mid.in_t2(key));
                assert(mid.cached_lookup(key) is None);
                if mid2.cached_lookup(key) is Some {
                    assert(mid.cached_lookup(key) == mid2.cached_lookup(key));
                }
                assert(!mid2.in_t1(key) && !mid2.in_t2(key));
                assert(!self.t2.contains_key(key));
                assert(!mid2.in_b1(key));
                assert(!mid2.in_b2(key));
            }
            self.t2.push_front(key, value);
            proof {
                KeyedList::lemma_push_front_lookup(mid2.t2, self.t2, key, value);
                assert forall|c: K|
                    !(#[trigger] self.t1.contains_key(c) && #[trigger] self.t2.contains_key(
                    c)) by {
                    if c != key {
                        assert(self.t2.contains_key(c) == mid2.t2.contains_key(c));
                    }
                }
                assert forall|c: K|
                    !(#[trigger] self.t2.contains_key(c) && #[trigger] self.b1.contains_key(
                    c)) by {
                    if c != key {
                        assert(self.t2.contains_key(c) == mid2.t2.contains_key(c));
                    }
                }
                assert forall|c: K|
                    !(#[trigger] self.t2.contains_key(c) && #[trigger] self.b2.contains_key(
                    c)) by {
                    if c != key {
                        assert(self.t2.contains_key(c) == mid2.t2.contains_key(c));
                    }
                }
                assert forall|k2: K|
                    k2 != key && (#[trigger] self.cached_lookup(k2)) is Some implies
                    self.cached_lookup(k2) == pre.cached_lookup(k2) by {
                    assert(self.t2.lookup(k2) == mid2.t2.lookup(k2));
                    assert(self.cached_lookup(k2) == mid2.cached_lookup(k2));
                    if mid2.cached_lookup(k2) is Some {
                        assert(mid2.cached_lookup(k2) == mid.cached_lookup(k2));
                    }
                    assert(mid.cached_lookup(k2) == pre.cached_lookup(k2));
                }
                assert(self.prefetch_buffer_size == old(self).prefetch_buffer_size);
                assert(self.wf());
            }
            return ;
        }
        // The key is nowhere: a genuinely new entry for T1.
        let total = self.t1.len() + self.t2.len();
        if total < self.capacity {
            let room = self.capacity - total;
            let b1l = self.b1.len();
            let b2l = self.b2.len();
            if b1l >= room || b2l >= room - b1l {
                // Make ghost room, dropping the oldest B2 key first.
                if self.b2.len() > 0 {
                    let ghost before = *self;
                    let _ = self.b2.pop_front();
                    proof {
                        KeyedList::lemma_remove_lookup(before.b2, self.b2, 0);
                    }
                } else if self.b1.len() > 0 {
                    let ghost before = *self;
                    let _ = self.b1.pop_front();
                    proof {
                        KeyedList::lemma_remove_lookup(before.b1, self.b1, 0);
                    }
                }
            }
        } else {
            self.replace(false);
        }
        let ghost mid = *self;
        proof {
            assert(!pre.in_t1(key) && !pre.in_t2(key));
            assert(pre.cached_lookup(key) is None);
            if mid.cached_lookup(key) is Some {
                assert(mid.cached_lookup(key) == pre.cached_lookup(key));
            }
            assert(!mid.in_t1(key) && !mid.in_t2(key));
            assert(!self.t1.contains_key(key));
        }
        self.t1.push_front(key, value);
        proof {
            KeyedList::lemma_push_front_lookup(mid.t1, self.t1, key, value);
            assert(!mid.in_b1(key));
            assert(!mid.in_b2(key));
            assert forall|c: K|
                !(#[trigger] self.t1.contains_key(c) && #[trigger] self.t2.contains_key(c)) by {
                if c != key {
                    assert(self.t1.contains_key(c) == mid.t1.contains_key(c));
                }
            }
            assert forall|c: K|
                !(#[trigger] self.t1.contains_key(c) && #[trigger] self.b1.contains_key(c)) by {
                if c != key {
                    assert(self.t1.contains_key(c) == mid.t1.contains_key(c));
                }
            }
            assert forall|c: K|
                !(#[trigger] self.t1.contains_key(c) && #[trigger] self.b2.contains_key(c)) by {
                if c != key {
                    assert(self.t1.contains_key(c) == mid.t1.contains_key(c));
                }
            }
            assert forall|k2: K|
                k2 != key && (#[trigger] self.cached_lookup(k2)) is Some implies
                self.cached_lookup(k2) == pre.cached_lookup(k2) by {
                assert(self.t1.lookup(k2) == mid.t1.lookup(k2));
                assert(self.cached_lookup(k2) == mid.cached_lookup(k2));
                if mid.cached_lookup(k2) is Some {
                    assert(mid.cached_lookup(k2) == pre.cached_lookup(k2));
                }
            }
            assert(self.lists_wf());
            assert(self.wf());
        }
    }

    /// Removal also purges the key from both ghost histories.
    fn remove(&mut self, key: &K) -> (r: Option<V>)
        ensures
            !final(self).in_b1(*key),
            !final(self).in_b2(*key),
            final(self).p_target() == old(self).p_target(),
    {
        let ghost pre = *self;
        match self.t1.remove_key(key) {
            Some((_, v)) => {
                proof {
                    let i = pre.t1.index_of(*key);
                    assert(0 <= i < pre.t1@.len() && pre.t1@[i].0 == *key);
                    pre.t1.lemma_index_unique(i);
                    KeyedList::lemma_remove_lookup(pre.t1, self.t1, i);
                }
                return Some(v);
            },
            None => {
                proof {
                    KeyedList::lemma_same_lookup(pre.t1, self.t1);
                }
            },
        }
        match self.t2.remove_key(key) {
            Some((_, v)) => {
                proof {
                    let i = pre.t2.index_of(*key);
                    assert(0 <= i < pre.t2@.len() && pre.t2@[i].0 == *key);
                    pre.t2.lemma_index_unique(i);
                    KeyedList::lemma_remove_lookup(pre.t2, self.t2, i);
                }
                return Some(v);
            },
            None => {
                proof {
                    KeyedList::lemma_same_lookup(pre.t2, self.t2);
                }
            },
        }
        let ghost m1 = *self;
        match self.b1.remove_key(key) {
            Some(_) => {
                proof {
                    let i = m1.b1.index_of(*key);
                    assert(0 <= i < m1.b1@.len() && m1.b1@[i].0 == *key);
                    KeyedList::lemma_remove_lookup(m1.b1, self.b1, i);
                }
            },
            None => {
                proof {
                    KeyedList::lemma_same_lookup(m1.b1, self.b1);
                }
            },
        }
        let ghost m2 = *self;
        match self.b2.remove_key(key) {
            Some(_) => {
                proof {
                    let i = m2.b2.index_of(*key);
                    assert(0 <= i < m2.b2@.len() && m2.b2@[i].0 == *key);
                    KeyedList::lemma_remove_lookup(m2.b2, self.b2, i);
                }
            },
            None => {
                proof {
                    KeyedList::lemma_same_lookup(m2.b2, self.b2);
                }
            },
        }
        None
    }

    fn len(&self) -> (r: usize) {
        proof {
            assert(self.wf());
        }
        let r = self.t1.len() + self.t2.len();
        proof {
            assert(r as nat == self.spec_len());
            assert(r as nat <= self.spec_cap());
        }
        r
    }

    /// Everything is released: both cache lists, both histories, and the
    /// target returns to zero.
    fn clear(&mut self)
        ensures
            final(self).p_target() == 0,
            final(self).t1_order().len() == 0,
            final(self).t2_order().len() == 0,
            final(self).b1_keys().len() == 0,
            final(self).b2_keys().len() == 0,
    {
        self.t1.clear();
        self.t2.clear();
        self.b1.clear();
        self.b2.clear();
        self.p = 0;
        proof {
            assert(forall|k2: K| !self.t1.contains_key(k2));
            assert(forall|k2: K| !self.t2.contains_key(k2));
            assert(forall|k2: K| !self.b1.contains_key(k2));
            assert(forall|k2: K| !self.b2.contains_key(k2));
        }
    }

    fn capacity(&self) -> (r: usize) {
        self.capacity
    }
}

} // verus!
