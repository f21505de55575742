//! Random replacement: a flat store whose eviction victim is drawn uniformly
//! among the live entries. The contracts state what holds of every possible
//! draw: exactly one existing entry leaves, and the new key is cached.

use vstd::prelude::*;
use crate::{CacheKey, CachePolicy, PrefetchStrategy};
use crate::keylist::KeyedList;
use crate::prefetch::NoPrefetch;
use super::{record_prediction_round, PrefetchStats};

verus! {

/// Relies on `rand::Rng::gen_range` over `0..n`: it panics only on an empty
/// range, and returns a uniformly sampled value of the range, so the result
/// is below `n`. Nothing more is assumed: every caller is verified for every
/// possible draw.
#[verifier::external_body]
fn random_index(n: usize) -> (r: usize)
    requires
        n >= 1,
    ensures
        r < n,
{
    rand::Rng::gen_range(&mut rand::thread_rng(), 0..n)
}

/// A fixed-capacity cache that evicts a uniformly random entry when full.
pub struct RandomCache<K, V, P = NoPrefetch> {
    list: KeyedList<K, V>,
    capacity: usize,
    prefetch_strategy: P,
    prefetch_buffer_size: usize,
    prefetch_stats: PrefetchStats,
}

impl<K, V, P> RandomCache<K, V, P> {
    /// The live entries, in insertion order.
    pub closed spec fn order(&self) -> Seq<(K, V)> {
        self.list@
    }

    /// Where `k` currently sits in that order (meaningful on a hit).
    pub closed spec fn key_index(&self, k: K) -> int {
        self.list.index_of(k)
    }

    /// The prediction counters.
    pub closed spec fn pstats(&self) -> PrefetchStats {
        self.prefetch_stats
    }

    pub closed spec fn wf(&self) -> bool {
        &&& self.list.wf()
        &&& self.capacity >= 1
        &&& self.list@.len() <= self.capacity
        &&& self.prefetch_buffer_size >= 1
    }
}

impl<K: CacheKey, V> RandomCache<K, V, NoPrefetch> {
    /// Create a random-replacement cache that holds at most `capacity`
    /// entries, with the no-op prediction strategy.
    pub fn new(capacity: usize) -> (r: Self)
        requires
            capacity >= 1,
        ensures
            r.inv(),
            r.spec_cap() == capacity,
            r.spec_len() == 0,
            r.order().len() == 0,
            forall|k: K| #[trigger] r.lookup(k) is None,
            r.pstats().is_zero(),
    {
        Self::with_custom_prefetch(capacity, NoPrefetch)
    }

    /// Create a random-replacement cache with a capacity of 100 entries.
    pub fn with_default_capacity() -> (r: Self)
        ensures
            r.inv(),
            r.spec_cap() == 100,
            r.spec_len() == 0,
            r.order().len() == 0,
            forall|k: K| #[trigger] r.lookup(k) is None,
            r.pstats().is_zero(),
    {
        Self::new(100)
    }
}

impl<K: CacheKey, V, P: PrefetchStrategy<K>> RandomCache<K, V, P> {
    /// Create a random-replacement cache that consults the given prediction
    /// strategy.
    pub fn with_custom_prefetch(capacity: usize, prefetch_strategy: P) -> (r: Self)
        requires
            capacity >= 1,
        ensures
            r.inv(),
            r.spec_cap() == capacity,
            r.spec_len() == 0,
            r.order().len() == 0,
            forall|k: K| #[trigger] r.lookup(k) is None,
            r.pstats().is_zero(),
    {
        let buf = if capacity / 4 >= 1 {
            capacity / 4
        } else {
            1
        };
        let r = RandomCache {
            list: KeyedList::new(),
            capacity,
            prefetch_strategy,
            prefetch_buffer_size: buf,
            prefetch_stats: PrefetchStats::default(),
        };
        proof {
            assert(forall|k: K| !r.list.contains_key(k));
        }
        r
    }

    /// What `lookup` returns is exactly the association of the published
    /// entry order.
    pub proof fn lemma_lookup_over_order(&self)
        requires
            self.inv(),
        ensures
            self.spec_len() == self.order().len(),
            forall|k: K| #[trigger] self.lookup(k) == crate::keylist::seq_lookup(self.order(), k),
            forall|k: K| #[trigger]
                crate::keylist::seq_contains_key(self.order(), k) ==> 0 <= self.key_index(k)
                    < self.order().len() && self.order()[self.key_index(k)].0 == k && self.lookup(
                    k,
                ) == Some(self.order()[self.key_index(k)].1),
    {
        self.list.lemma_lookup_matches_seq();
        assert forall|k: K| #[trigger]
            crate::keylist::seq_contains_key(self.order(), k) implies 0 <= self.key_index(k)
            < self.order().len() && self.order()[self.key_index(k)].0 == k && self.lookup(k)
            == Some(self.order()[self.key_index(k)].1) by {
            let i1 = crate::keylist::seq_index_of(self.list@, k);
            assert(0 <= i1 < self.list@.len() && self.list@[i1].0 == k);
            assert(self.list.contains_key(k));
            let i0 = self.list.index_of(k);
            assert(0 <= i0 < self.list@.len() && self.list@[i0].0 == k);
        }
    }

    /// The prediction counters so far.
    pub fn prefetch_stats(&self) -> (r: &PrefetchStats)
        ensures
            *r == self.pstats(),
    {
        &self.prefetch_stats
    }

    /// Zero the prediction counters and reset the strategy; cached entries
    /// are untouched.
    pub fn reset_prefetch_stats(&mut self)
        requires
            old(self).inv(),
        ensures
            final(self).inv(),
            final(self).pstats().is_zero(),
            final(self).order() == old(self).order(),
            final(self).spec_cap() == old(self).spec_cap(),
    {
        self.prefetch_stats = PrefetchStats::default();
        self.prefetch_strategy.reset();
    }

    /// Bound the speculative buffer; at least one slot is always kept.
    pub fn set_prefetch_buffer_size(&mut self, size: usize)
        requires
            old(self).inv(),
        ensures
            final(self).inv(),
            final(self).order() == old(self).order(),
            final(self).pstats() == old(self).pstats(),
            final(self).spec_cap() == old(self).spec_cap(),
    {
        self.prefetch_buffer_size = if size >= 1 {
            size
        } else {
            1
        };
    }
}

impl<K: CacheKey, V, P: PrefetchStrategy<K>> CachePolicy<K, V> for RandomCache<K, V, P> {
    closed spec fn inv(&self) -> bool {
        self.wf()
    }

    closed spec fn spec_cap(&self) -> nat {
        self.capacity as nat
    }

    closed spec fn spec_len(&self) -> nat {
        self.list@.len()
    }

    closed spec fn lookup(&self, k: K) -> Option<V> {
        self.list.lookup(k)
    }

    /// A lookup never reorders or evicts anything.
    fn get(&mut self, key: &K) -> (r: Option<&V>)
        ensures
            final(self).order() == old(self).order(),
    {
        if self.list.contains(key) {
            let _ = record_prediction_round(&mut self.prefetch_strategy, &mut self.prefetch_stats, key);
            match self.list.get_ref(key) {
                Some(vr) => Some(vr),
                None => {
                    proof {
                        assert(false);
                    }
                    None
                },
            }
        } else {
            None
        }
    }

    /// A fresh key is stored after evicting one uniformly chosen entry if the
    /// cache is full; updating a cached key overwrites its value in place.
    fn insert(&mut self, key: K, value: V)
        ensures
            old(self).lookup(key) is None && old(self).spec_len() == old(self).spec_cap() ==> (
            exists|i: int|
                0 <= i < old(self).order().len() && final(self).order()
                    == old(self).order().remove(i).push((key, value))),
            old(self).lookup(key) is None && old(self).spec_len() < old(self).spec_cap()
                ==> final(self).order() == old(self).order().push((key, value)),
    {
        let ghost pre = *self;
        if self.list.contains(&key) {
            let _ = self.list.set_value(&key, value);
        } else {
            if self.list.len() == self.capacity {
                let victim = random_index(self.list.len());
                let ghost before = *self;
                let _ = self.list.remove_at(victim);
                proof {
                    KeyedList::lemma_remove_lookup(before.list, self.list, victim as int);
                }
                let ghost mid = *self;
                self.list.push_back(key, value);
                proof {
                    KeyedList::lemma_push_back_lookup(mid.list, self.list, key, value);
                    assert(self.order() == old(self).order().remove(victim as int).push(
                        (key, value),
                    ));
                    assert(exists|i: int|
                        0 <= i < old(self).order().len() && self.order() == old(self).order().remove(i).push((key, value)));
                }
            } else {
                let ghost mid = *self;
                self.list.push_back(key, value);
                proof {
                    KeyedList::lemma_push_back_lookup(mid.list, self.list, key, value);
                }
            }
        }
    }

    fn remove(&mut self, key: &K) -> (r: Option<V>)
        ensures
            old(self).lookup(*key) is Some ==> final(self).order() == old(self).order().remove(
                old(self).key_index(*key),
            ),
    {
        let ghost pre = *self;
        match self.list.remove_key(key) {
            Some((_, v)) => {
                proof {
                    let i = pre.list.index_of(*key);
                    assert(0 <= i < pre.list@.len() && pre.list@[i].0 == *key);
                    pre.list.lemma_index_unique(i);
                    KeyedList::lemma_remove_lookup(pre.list, self.list, i);
                }
                Some(v)
            },
            None => None,
        }
    }

    fn len(&self) -> (r: usize) {
        let r = self.list.len();
        proof {
            assert(self.wf());
            assert(r <= self.capacity);
            assert(r as nat <= self.spec_cap());
            assert(r as nat == self.spec_len());
        }
        r
    }

    fn clear(&mut self) {
        self.list.clear();
        proof {
            assert(forall|k2: K| !self.list.contains_key(k2));
        }
    }

    fn capacity(&self) -> (r: usize) {
        self.capacity
    }
}

} // verus!
