//! 2Q: a FIFO queue A1 absorbs first-time arrivals, an LRU list Am keeps the
//! keys that proved their worth, and the ghost FIFO A1out remembers keys
//! lately evicted from A1. A key that returns while still remembered skips A1
//! and goes straight into Am: one-shot scans stay cheap, recurring keys gain
//! scan-proof residence.

use vstd::prelude::*;
use crate::{CacheKey, CachePolicy, PrefetchStrategy};
use crate::keylist::KeyedList;
use crate::prefetch::NoPrefetch;
use super::{record_prediction_round, PrefetchStats};

verus! {

/// A fixed-capacity 2Q cache with an attached prediction strategy.
pub struct TwoQCache<K, V, P = NoPrefetch> {
    a1: KeyedList<K, V>,
    am: KeyedList<K, V>,
    a1out: KeyedList<K, ()>,
    capacity: usize,
    a1_capacity: usize,
    a1out_capacity: usize,
    am_capacity: usize,
    prefetch_strategy: P,
    prefetch_buffer_size: usize,
    prefetch_stats: PrefetchStats,
}

impl<K, V, P> TwoQCache<K, V, P> {
    /// The first-time arrivals, earliest first.
    pub closed spec fn a1_order(&self) -> Seq<(K, V)> {
        self.a1@
    }

    /// The proven-frequent entries, most recently used first.
    pub closed spec fn am_order(&self) -> Seq<(K, V)> {
        self.am@
    }

    /// The keys remembered after eviction from A1, oldest first.
    pub closed spec fn a1out_keys(&self) -> Seq<K> {
        self.a1out.key_seq()
    }

    pub closed spec fn in_a1(&self, k: K) -> bool {
        self.a1.contains_key(k)
    }

    pub closed spec fn in_am(&self, k: K) -> bool {
        self.am.contains_key(k)
    }

    pub closed spec fn in_a1out(&self, k: K) -> bool {
        self.a1out.contains_key(k)
    }

    /// Where `k` sits in A1 (meaningful when present).
    pub closed spec fn a1_index_of(&self, k: K) -> int {
        self.a1.index_of(k)
    }

    /// Where `k` sits in Am (meaningful when present).
    pub closed spec fn am_index_of(&self, k: K) -> int {
        self.am.index_of(k)
    }

    /// The bound of the A1 queue.
    pub closed spec fn a1_cap(&self) -> nat {
        self.a1_capacity as nat
    }

    /// The bound of the Am list.
    pub closed spec fn am_cap(&self) -> nat {
        self.am_capacity as nat
    }

    /// The bound of the A1out history.
    pub closed spec fn a1out_cap(&self) -> nat {
        self.a1out_capacity as nat
    }

    /// The prediction counters.
    pub closed spec fn pstats(&self) -> PrefetchStats {
        self.prefetch_stats
    }

    pub closed spec fn lists_wf(&self) -> bool {
        &&& self.a1.wf()
        &&& self.am.wf()
        &&& self.a1out.wf()
        &&& self.capacity >= 1
        &&& self.a1_capacity >= 1
        &&& self.a1out_capacity >= 1
        &&& self.a1_capacity + self.am_capacity == self.capacity
        &&& self.a1@.len() <= self.a1_capacity
        &&& self.a1out@.len() <= self.a1out_capacity
        &&& self.am@.len() <= (if self.am_capacity >= 1 {
            self.am_capacity as int
        } else {
            1int
        })
        &&& self.a1@.len() + self.am@.len() <= self.capacity
        &&& forall|k: K|
            !(#[trigger] self.a1.contains_key(k) && #[trigger] self.am.contains_key(k))
        &&& forall|k: K|
            !(#[trigger] self.a1.contains_key(k) && #[trigger] self.a1out.contains_key(k))
        &&& forall|k: K|
            !(#[trigger] self.am.contains_key(k) && #[trigger] self.a1out.contains_key(k))
    }

    pub closed spec fn wf(&self) -> bool {
        &&& self.lists_wf()
        &&& self.prefetch_buffer_size >= 1
    }
}

impl<K: CacheKey, V> TwoQCache<K, V, NoPrefetch> {
    /// Create a 2Q cache that holds at most `capacity` entries, with the
    /// no-op prediction strategy. A1 gets about a quarter of the room and
    /// A1out remembers about half a capacity of evicted keys.
    pub fn new(capacity: usize) -> (r: Self)
        requires
            capacity >= 1,
        ensures
            r.inv(),
            r.spec_cap() == capacity,
            r.spec_len() == 0,
            r.a1_cap() == (if capacity / 4 >= 1 {
                (capacity / 4) as nat
            } else {
                1nat
            }),
            r.a1out_cap() == (if capacity / 2 >= 1 {
                (capacity / 2) as nat
            } else {
                1nat
            }),
            r.a1_cap() + r.am_cap() == capacity,
            r.a1_order().len() == 0,
            r.am_order().len() == 0,
            r.a1out_keys().len() == 0,
            forall|k: K| #[trigger] r.lookup(k) is None,
            r.pstats().is_zero(),
    {
        Self::with_custom_prefetch(capacity, NoPrefetch)
    }
}

impl<K: CacheKey, V, P: PrefetchStrategy<K>> TwoQCache<K, V, P> {
    /// Create a 2Q cache that consults the given prediction strategy.
    pub fn with_custom_prefetch(capacity: usize, prefetch_strategy: P) -> (r: Self)
        requires
            capacity >= 1,
        ensures
            r.inv(),
            r.spec_cap() == capacity,
            r.spec_len() == 0,
            r.a1_cap() == (if capacity / 4 >= 1 {
                (capacity / 4) as nat
            } else {
                1nat
            }),
            r.a1out_cap() == (if capacity / 2 >= 1 {
                (capacity / 2) as nat
            } else {
                1nat
            }),
            r.a1_cap() + r.am_cap() == capacity,
            r.a1_order().len() == 0,
            r.am_order().len() == 0,
            r.a1out_keys().len() == 0,
            forall|k: K| #[trigger] r.lookup(k) is None,
            r.pstats().is_zero(),
    {
        let a1_capacity = if capacity / 4 >= 1 {
            capacity / 4
        } else {
            1
        };
        let a1out_capacity = if capacity / 2 >= 1 {
            capacity / 2
        } else {
            1
        };
        let am_capacity = capacity - a1_capacity;
        let buf = if capacity / 4 >= 1 {
            capacity / 4
        } else {
            1
        };
        let r = TwoQCache {
            a1: KeyedList::new(),
            am: KeyedList::new(),
            a1out: KeyedList::new(),
            capacity,
            a1_capacity,
            a1out_capacity,
            am_capacity,
            prefetch_strategy,
            prefetch_buffer_size: buf,
            prefetch_stats: PrefetchStats::default(),
        };
        proof {
            assert(forall|k: K| !r.a1.contains_key(k));
            assert(forall|k: K| !r.am.contains_key(k));
            assert(forall|k: K| !r.a1out.contains_key(k));
        }
        r
    }

    /// What `lookup` returns is exactly the association A1 and Am together
    /// publish: A1 is consulted first, then Am.
    pub proof fn lemma_lookup_over_lists(&self)
        requires
            self.inv(),
        ensures
            self.spec_len() == self.a1_order().len() + self.am_order().len(),
            forall|k: K| #[trigger]
                self.lookup(k) == (if crate::keylist::seq_contains_key(self.a1_order(), k) {
                    crate::keylist::seq_lookup(self.a1_order(), k)
                } else {
                    crate::keylist::seq_lookup(self.am_order(), k)
                }),
            forall|k: K| #[trigger]
                crate::keylist::seq_contains_key(self.a1_order(), k) ==> 0 <= self.a1_index_of(k)
                    < self.a1_order().len() && self.a1_order()[self.a1_index_of(k)].0 == k
                    && self.lookup(k) == Some(self.a1_order()[self.a1_index_of(k)].1),
            forall|k: K| #[trigger]
                crate::keylist::seq_contains_key(self.am_order(), k) ==> 0 <= self.am_index_of(k)
                    < self.am_order().len() && self.am_order()[self.am_index_of(k)].0 == k && (
                !crate::keylist::seq_contains_key(self.a1_order(), k) ==> self.lookup(k) == Some(
                    self.am_order()[self.am_index_of(k)].1,
                )),
            forall|k: K| #[trigger]
                self.in_a1(k) == crate::keylist::seq_contains_key(self.a1_order(), k),
            forall|k: K| #[trigger]
                self.in_am(k) == crate::keylist::seq_contains_key(self.am_order(), k),
            forall|k: K| #[trigger] self.in_a1out(k) == self.a1out_keys().contains(k),
    {
        self.a1.lemma_lookup_matches_seq();
        self.am.lemma_lookup_matches_seq();
        assert forall|k: K| #[trigger]
            self.in_a1(k) == crate::keylist::seq_contains_key(self.a1@, k) by {
            if self.a1.contains_key(k) {
                let i = self.a1.index_of(k);
                assert(0 <= i < self.a1@.len() && self.a1@[i].0 == k);
                assert(crate::keylist::seq_contains_key(self.a1@, k));
            } else {
                if crate::keylist::seq_contains_key(self.a1@, k) {
                    let i = crate::keylist::seq_index_of(self.a1@, k);
                    assert(0 <= i < self.a1@.len() && self.a1@[i].0 == k);
                    assert(self.a1.contains_key(k));
                }
            }
        }
        assert forall|k: K| #[trigger]
            self.in_am(k) == crate::keylist::seq_contains_key(self.am@, k) by {
            if self.am.contains_key(k) {
                let i = self.am.index_of(k);
                assert(0 <= i < self.am@.len() && self.am@[i].0 == k);
                assert(crate::keylist::seq_contains_key(self.am@, k));
            } else {
                if crate::keylist::seq_contains_key(self.am@, k) {
                    let i = crate::keylist::seq_index_of(self.am@, k);
                    assert(0 <= i < self.am@.len() && self.am@[i].0 == k);
                    assert(self.am.contains_key(k));
                }
            }
        }
        assert forall|k: K| #[trigger] self.in_a1out(k) == self.a1out_keys().contains(k) by {
            if self.a1out.contains_key(k) {
                let i = self.a1out.index_of(k);
                assert(0 <= i < self.a1out@.len() && self.a1out@[i].0 == k);
                assert(self.a1out_keys()[i] == k);
                assert(self.a1out_keys().contains(k));
            } else {
                if self.a1out_keys().contains(k) {
                    let i = choose|i: int| 0 <= i < self.a1out_keys().len() && self.a1out_keys()[i] == k;
                    assert(self.a1out@[i].0 == k);
                    assert(self.a1out.contains_key(k));
                }
            }
        }
        assert forall|k: K| #[trigger]
            crate::keylist::seq_contains_key(self.a1@, k) implies 0 <= self.a1_index_of(k) < self.a1@.len()
            && self.a1@[self.a1_index_of(k)].0 == k && self.lookup(k) == Some(
            self.a1@[self.a1_index_of(k)].1) by {
            let i1 = crate::keylist::seq_index_of(self.a1@, k);
            assert(0 <= i1 < self.a1@.len() && self.a1@[i1].0 == k);
            assert(self.a1.contains_key(k));
            let i0 = self.a1.index_of(k);
            assert(0 <= i0 < self.a1@.len() && self.a1@[i0].0 == k);
        }
        assert forall|k: K| #[trigger]
            crate::keylist::seq_contains_key(self.am@, k) implies 0 <= self.am_index_of(k) < self.am@.len()
            && self.am@[self.am_index_of(k)].0 == k && (!crate::keylist::seq_contains_key(self.a1@, k)
            ==> self.lookup(k) == Some(self.am@[self.am_index_of(k)].1)) by {
            let i1 = crate::keylist::seq_index_of(self.am@, k);
            assert(0 <= i1 < self.am@.len() && self.am@[i1].0 == k);
            assert(self.am.contains_key(k));
            let i0 = self.am.index_of(k);
            assert(0 <= i0 < self.am@.len() && self.am@[i0].0 == k);
            if !crate::keylist::seq_contains_key(self.a1@, k) {
                if self.a1.contains_key(k) {
                    let j = self.a1.index_of(k);
                    assert(0 <= j < self.a1@.len() && self.a1@[j].0 == k);
                    assert(crate::keylist::seq_contains_key(self.a1@, k));
                }
            }
        }

        assert forall|k: K| #[trigger]
            self.lookup(k) == (if crate::keylist::seq_contains_key(self.a1_order(), k) {
                crate::keylist::seq_lookup(self.a1_order(), k)
            } else {
                crate::keylist::seq_lookup(self.am_order(), k)
            }) by {
            assert(self.a1.lookup(k) == crate::keylist::seq_lookup(self.a1@, k));
            assert(self.am.lookup(k) == crate::keylist::seq_lookup(self.am@, k));
            if self.a1.contains_key(k) {
                let i = self.a1.index_of(k);
                assert(0 <= i < self.a1@.len() && self.a1@[i].0 == k);
                assert(crate::keylist::seq_contains_key(self.a1@, k));
            } else {
                if crate::keylist::seq_contains_key(self.a1@, k) {
                    let i = crate::keylist::seq_index_of(self.a1@, k);
                    assert(0 <= i < self.a1@.len() && self.a1@[i].0 == k);
                    assert(self.a1.contains_key(k));
                }
            }
        }
    }

    /// The prediction counters so far.
    pub fn prefetch_stats(&self) -> (r: &PrefetchStats)
        ensures
            *r == self.pstats(),
    {
        &self.prefetch_stats
    }

    /// Zero the prediction counters and reset the strategy; cached entries
    /// and the history are untouched.
    pub fn reset_prefetch_stats(&mut self)
        requires
            old(self).inv(),
        ensures
            final(self).inv(),
            final(self).pstats().is_zero(),
            final(self).a1_order() == old(self).a1_order(),
            final(self).am_order() == old(self).am_order(),
            final(self).a1out_keys() == old(self).a1out_keys(),
            final(self).spec_cap() == old(self).spec_cap(),
    {
        self.prefetch_stats = PrefetchStats::default();
        self.prefetch_strategy.reset();
    }

    /// Evict the front of A1 into the A1out history, dropping A1out's oldest
    /// memory if it is full. Used when A1 must give up room.
    fn demote_a1_front(&mut self)
        requires
            old(self).lists_wf(),
            old(self).a1_order().len() >= 1,
        ensures
            final(self).lists_wf(),
            final(self).a1_order() == old(self).a1_order().drop_first(),
            final(self).am_order() == old(self).am_order(),
            final(self).in_a1out(old(self).a1_order()[0].0),
            final(self).capacity_fields() == old(self).capacity_fields(),
            final(self).pstats() == old(self).pstats(),
            final(self).prefetch_buffer_size == old(self).prefetch_buffer_size,
            forall|k: K| #[trigger]
                final(self).in_a1out(k) ==> old(self).in_a1out(k) || k == old(self).a1_order()[0].0,
            forall|k: K| #[trigger]
                final(self).in_a1(k) == (k != old(self).a1_order()[0].0 && old(self).in_a1(k)),
            final(self).a1out_keys() == (if old(self).a1out_keys().len() < old(self).a1out_cap() {
                old(self).a1out_keys().push(old(self).a1_order()[0].0)
            } else {
                old(self).a1out_keys().push(old(self).a1_order()[0].0).drop_first()
            }),
    {
        let ghost pre = *self;
        let e = self.a1.pop_front();
        match e {
            Some((k, _)) => {
                proof {
                    KeyedList::lemma_remove_lookup(pre.a1, self.a1, 0);
                    pre.a1.lemma_index_unique(0);
                }
                let ghost mid = *self;
                self.a1out.push_back(k, ());
                proof {
                    KeyedList::lemma_push_back_lookup(mid.a1out, self.a1out, k, ());
                    assert(self.a1out.key_seq() =~= mid.a1out.key_seq().push(k));
                }
                if self.a1out.len() > self.a1out_capacity {
                    let ghost before = *self;
                    let _ = self.a1out.pop_front();
                    proof {
                        KeyedList::lemma_remove_lookup(before.a1out, self.a1out, 0);
                        assert(before.a1out@.len() >= 2);
                        before.a1out.lemma_index_unique(before.a1out@.len() - 1);
                        assert(self.a1out@[self.a1out@.len() - 1].0 == k);
                        self.a1out.lemma_index_unique(self.a1out@.len() - 1);
                        assert(self.a1out.key_seq() =~= before.a1out.key_seq().drop_first());
                        assert(self.a1out.key_seq() =~= mid.a1out.key_seq().push(k).drop_first());
                    }
                }
            },
            None => {
                proof {
                    assert(false);
                }
            },
        }
    }
}

impl<K, V, P> TwoQCache<K, V, P> {
    /// What A1 and Am together cache under `k`.
    pub closed spec fn cached_lookup(&self, k: K) -> Option<V> {
        if self.a1.contains_key(k) {
            self.a1.lookup(k)
        } else {
            self.am.lookup(k)
        }
    }

    pub closed spec fn capacity_fields(&self) -> (nat, nat, nat, nat) {
        (
            self.capacity as nat,
            self.a1_capacity as nat,
            self.a1out_capacity as nat,
            self.am_capacity as nat,
        )
    }
}

impl<K: CacheKey, V, P: PrefetchStrategy<K>> CachePolicy<K, V> for TwoQCache<K, V, P> {
    closed spec fn inv(&self) -> bool {
        self.wf()
    }

    closed spec fn spec_cap(&self) -> nat {
        self.capacity as nat
    }

    closed spec fn spec_len(&self) -> nat {
        self.a1@.len() + self.am@.len()
    }

    closed spec fn lookup(&self, k: K) -> Option<V> {
        self.cached_lookup(k)
    }

    /// A hit in A1 returns the value without any reordering (A1 is pure
    /// FIFO); a hit in Am moves the entry to the front of Am.
    fn get(&mut self, key: &K) -> (r: Option<&V>)
        ensures
            final(self).a1_cap() == old(self).a1_cap(),
            final(self).a1out_cap() == old(self).a1out_cap(),
            final(self).am_cap() == old(self).am_cap(),
            final(self).a1_order() == old(self).a1_order(),
            final(self).a1out_keys() == old(self).a1out_keys(),
            old(self).in_am(*key) ==> final(self).am_order() == seq![
                (*key, old(self).am_order()[old(self).am_index_of(*key)].1),
            ] + old(self).am_order().remove(old(self).am_index_of(*key)),
            !old(self).in_am(*key) ==> final(self).am_order() == old(self).am_order(),
    {
        let ghost pre = *self;
        if self.a1.contains(key) {
            let _ = record_prediction_round(&mut self.prefetch_strategy, &mut self.prefetch_stats, key);
            match self.a1.get_ref(key) {
                Some(vr) => Some(vr),
                None => {
                    proof {
                        assert(false);
                    }
                    None
                },
            }
        } else {
            match self.am.remove_key(key) {
                Some((k, v)) => {
                    proof {
                        let i = pre.am.index_of(*key);
                        assert(0 <= i < pre.am@.len() && pre.am@[i].0 == *key);
                        pre.am.lemma_index_unique(i);
                        KeyedList::lemma_remove_lookup(pre.am, self.am, i);
                    }
                    let ghost mid = *self;
                    self.am.push_front(k, v);
                    proof {
                        KeyedList::lemma_push_front_lookup(mid.am, self.am, k, v);
                        assert(k == *key);
                    }
                    let _ = record_prediction_round(
                        &mut self.prefetch_strategy,
                        &mut self.prefetch_stats,
                        key,
                    );
                    match self.am.get_ref(key) {
                        Some(vr) => Some(vr),
                        None => {
                            proof {
                                assert(false);
                            }
                            None
                        },
                    }
                },
                None => {
                    proof {
                        KeyedList::lemma_same_lookup(pre.am, self.am);
                    }
                    None
                },
            }
        }
    }

    /// A key still in A1 or Am is updated in place (an Am hit also moves it
    /// to the front). A key remembered in A1out is promoted straight into
    /// Am, never back into A1, after making room there. An unseen key first
    /// reclaims room (A1's front goes to the A1out history when A1 is full,
    /// Am's tail is dropped when Am is full) and then joins the back of A1.
    fn insert(&mut self, key: K, value: V)
        ensures
            final(self).a1_cap() == old(self).a1_cap(),
            final(self).a1out_cap() == old(self).a1out_cap(),
            final(self).am_cap() == old(self).am_cap(),
            old(self).in_a1(key) ==> final(self).a1_order() == old(self).a1_order().update(
                old(self).a1_index_of(key),
                (key, value),
            ) && final(self).am_order() == old(self).am_order(),
            old(self).in_am(key) ==> final(self).am_order() == seq![(key, value)] + old(self).am_order().remove(old(self).am_index_of(key)),
            old(self).in_a1out(key) ==> final(self).in_am(key) && !final(self).in_a1(key) && !final(self).in_a1out(key),
            !old(self).in_a1(key) && !old(self).in_am(key) && !old(self).in_a1out(key) ==> final(self).in_a1(key) && !final(self).in_am(key),
            !old(self).in_a1(key) && !old(self).in_am(key) && !old(self).in_a1out(key) && old(self).a1_order().len() >= old(self).a1_cap() ==> final(self).in_a1out(
                old(self).a1_order()[0].0,
            ),
            old(self).in_a1out(key) && (old(self).am_order().len() < old(self).am_cap() || old(self).am_order().len() == 0) ==> final(self).am_order() == seq![(key, value)] + old(self).am_order(),
            old(self).in_a1out(key) && old(self).am_order().len() >= old(self).am_cap() && old(self).am_order().len() > 0 ==> final(self).am_order() == seq![(key, value)] + old(self).am_order().drop_last(),
            !old(self).in_a1(key) && !old(self).in_am(key) && !old(self).in_a1out(key) && old(self).a1_order().len() >= old(self).a1_cap() ==> final(self).a1_order() == old(self).a1_order().drop_first().push((key, value)) && final(self).a1out_keys() == (if old(self).a1out_keys().len() < old(self).a1out_cap() {
                old(self).a1out_keys().push(old(self).a1_order()[0].0)
            } else {
                old(self).a1out_keys().push(old(self).a1_order()[0].0).drop_first()
            }),
            !old(self).in_a1(key) && !old(self).in_am(key) && !old(self).in_a1out(key) && old(self).a1_order().len() < old(self).a1_cap() ==> final(self).a1_order() == old(self).a1_order().push((key, value)) && final(self).a1out_keys() == old(self).a1out_keys(),
            !old(self).in_a1(key) && !old(self).in_am(key) && !old(self).in_a1out(key) && old(self).am_order().len() >= old(self).am_cap() && old(self).am_order().len() > 0 ==> final(self).am_order() == old(self).am_order().drop_last(),
            !old(self).in_a1(key) && !old(self).in_am(key) && !old(self).in_a1out(key) && (old(self).am_order().len() < old(self).am_cap() || old(self).am_order().len() == 0) ==> final(self).am_order() == old(self).am_order(),
            final(self).a1out_keys().len() <= final(self).a1out_cap(),
    {
        let ghost pre = *self;
        if self.a1.contains(&key) {
            let _ = self.a1.set_value(&key, value);
            return ;
        }
        if self.am.contains(&key) {
            match self.am.remove_key(&key) {
                Some(_) => {
                    proof {
                        let i = pre.am.index_of(key);
                        assert(0 <= i < pre.am@.len() && pre.am@[i].0 == key);
                        pre.am.lemma_index_unique(i);
                        KeyedList::lemma_remove_lookup(pre.am, self.am, i);
                    }
                    let ghost mid = *self;
                    self.am.push_front(key, value);
                    proof {
                        KeyedList::lemma_push_front_lookup(mid.am, self.am, key, value);
                    }
                },
                None => {
                    proof {
                        assert(false);
                    }
                },
            }
            return ;
        }
        if self.a1out.contains(&key) {
            // Remembered: a second life goes straight to Am.
            let ghost h = *self;
            let _ = self.a1out.remove_key(&key);
            proof {
                let i = h.a1out.index_of(key);
                assert(0 <= i < h.a1out@.len() && h.a1out@[i].0 == key);
                KeyedList::lemma_remove_lookup(h.a1out, self.a1out, i);
            }
            if self.am.len() >= self.am_capacity && self.am.len() > 0 {
                let ghost before = *self;
                let _ = self.am.pop_back();
                proof {
                    KeyedList::lemma_remove_lookup(before.am, self.am, before.am@.len() - 1);
                }
            }
            if self.a1.len() + self.am.len() >= self.capacity {
                proof {
                    assert(self.a1@.len() >= 1);
                }
                self.demote_a1_front();
            }
            let ghost mid = *self;
            self.am.push_front(key, value);
            proof {
                KeyedList::lemma_push_front_lookup(mid.am, self.am, key, value);
                assert(!mid.in_a1(key));
                assert(!mid.in_a1out(key));
                assert forall|c: K|
                    !(#[trigger] self.a1.contains_key(c) && #[trigger] self.am.contains_key(
                    c)) by {
                    if c != key {
                        assert(self.am.contains_key(c) == mid.am.contains_key(c));
                    }
                }
                assert forall|c: K|
                    !(#[trigger] self.am.contains_key(c) && #[trigger] self.a1out.contains_key(
                    c)) by {
                    if c != key {
                        assert(self.am.contains_key(c) == mid.am.contains_key(c));
                    }
                }
                assert(self.lists_wf());
            }
            return ;
        }
        // Unseen: reclaim room, then queue at the back of A1.
        if self.a1.len() >= self.a1_capacity {
            proof {
                pre.a1.lemma_index_unique(0);
            }
            self.demote_a1_front();
            proof {
                assert(self.in_a1out(key) ==> pre.in_a1out(key) || key == pre.a1_order()[0].0);
                assert(!self.in_a1out(key));
            }
        }
        if self.am.len() >= self.am_capacity && self.am.len() > 0 {
            let ghost before = *self;
            let _ = self.am.pop_back();
            proof {
                KeyedList::lemma_remove_lookup(before.am, self.am, before.am@.len() - 1);
            }
        }
        let ghost mid = *self;
        self.a1.push_back(key, value);
        proof {
            KeyedList::lemma_push_back_lookup(mid.a1, self.a1, key, value);
            assert(!mid.in_am(key));
            if pre.a1@.len() >= 1 {
                pre.a1.lemma_index_unique(0);
            }
            assert(!mid.in_a1out(key));
            assert forall|c: K|
                !(#[trigger] self.a1.contains_key(c) && #[trigger] self.am.contains_key(c)) by {
                if c != key {
                    assert(self.a1.contains_key(c) == mid.a1.contains_key(c));
                }
            }
            assert forall|c: K|
                !(#[trigger] self.a1.contains_key(c) && #[trigger] self.a1out.contains_key(c)) by {
                if c != key {
                    assert(self.a1.contains_key(c) == mid.a1.contains_key(c));
                }
            }
            assert(self.lists_wf());
        }
    }

    /// Removal also purges the key from the A1out history.
    fn remove(&mut self, key: &K) -> (r: Option<V>)
        ensures
            final(self).a1_cap() == old(self).a1_cap(),
            final(self).a1out_cap() == old(self).a1out_cap(),
            final(self).am_cap() == old(self).am_cap(),
            !final(self).in_a1out(*key),
    {
        let ghost pre = *self;
        match self.a1.remove_key(key) {
            Some((_, v)) => {
                proof {
                    let i = pre.a1.index_of(*key);
                    assert(0 <= i < pre.a1@.len() && pre.a1@[i].0 == *key);
                    pre.a1.lemma_index_unique(i);
                    KeyedList::lemma_remove_lookup(pre.a1, self.a1, i);
                }
                return Some(v);
            },
            None => {
                proof {
                    KeyedList::lemma_same_lookup(pre.a1, self.a1);
                }
            },
        }
        match self.am.remove_key(key) {
            Some((_, v)) => {
                proof {
                    let i = pre.am.index_of(*key);
                    assert(0 <= i < pre.am@.len() && pre.am@[i].0 == *key);
                    pre.am.lemma_index_unique(i);
                    KeyedList::lemma_remove_lookup(pre.am, self.am, i);
                }
                return Some(v);
            },
            None => {
                proof {
                    KeyedList::lemma_same_lookup(pre.am, self.am);
                }
            },
        }
        let ghost m = *self;
        match self.a1out.remove_key(key) {
            Some(_) => {
                proof {
                    let i = m.a1out.index_of(*key);
                    assert(0 <= i < m.a1out@.len() && m.a1out@[i].0 == *key);
                    KeyedList::lemma_remove_lookup(m.a1out, self.a1out, i);
                }
            },
            None => {
                proof {
                    KeyedList::lemma_same_lookup(m.a1out, self.a1out);
                }
            },
        }
        None
    }

    fn len(&self) -> (r: usize) {
        proof {
            assert(self.wf());
        }
        let r = self.a1.len() + self.am.len();
        proof {
            assert(r as nat == self.spec_len());
            assert(r as nat <= self.spec_cap());
        }
        r
    }

    /// Both queues and the A1out history are all released.
    fn clear(&mut self)
        ensures
            final(self).a1_cap() == old(self).a1_cap(),
            final(self).a1out_cap() == old(self).a1out_cap(),
            final(self).am_cap() == old(self).am_cap(),
            final(self).a1_order().len() == 0,
            final(self).am_order().len() == 0,
            final(self).a1out_keys().len() == 0,
    {
        self.a1.clear();
        self.am.clear();
        self.a1out.clear();
        proof {
            assert(forall|k2: K| !self.a1.contains_key(k2));
            assert(forall|k2: K| !self.am.contains_key(k2));
            assert(forall|k2: K| !self.a1out.contains_key(k2));
        }
    }

    fn capacity(&self) -> (r: usize) {
        self.capacity
    }
}

} // verus!
