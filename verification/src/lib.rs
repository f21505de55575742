//! A library of interchangeable cache-eviction policies: fixed-capacity
//! key-value stores that, once full, choose an entry to discard on every new
//! insertion. Baseline policies (LRU, MRU, FIFO, LFU, Random) and
//! scan-resistant, adaptive ones (Clock, ARC, CAR, 2Q, SLRU) all satisfy one
//! common contract, `CachePolicy`, so a caller can swap strategies freely.

use vstd::prelude::*;

pub mod keylist;
pub mod laws;
pub mod ring;
pub mod policies;
pub mod prefetch;

verus! {

/// `x + 1`, stopping at the largest representable value.
pub open spec fn spec_sat_inc(x: u64) -> u64 {
    if x < u64::MAX {
        (x + 1) as u64
    } else {
        x
    }
}

/// `x + n`, stopping at the largest representable value.
pub open spec fn spec_sat_add(x: u64, n: u64) -> u64 {
    if x + n <= u64::MAX {
        (x + n) as u64
    } else {
        u64::MAX
    }
}

/// Increment a counter without ever overflowing.
pub fn sat_inc(x: u64) -> (r: u64)
    ensures
        r == spec_sat_inc(x),
{
    if x < u64::MAX {
        x + 1
    } else {
        x
    }
}

/// Add to a counter without ever overflowing.
pub fn sat_add(x: u64, n: u64) -> (r: u64)
    ensures
        r == spec_sat_add(x, n),
{
    if n <= u64::MAX - x {
        x + n
    } else {
        u64::MAX
    }
}

/// Keys that a cache can store and compare.
///
/// The executable comparison is tied to specification-level equality, which is
/// what every contract in this crate is stated over.
pub trait CacheKey: Sized {
    /// Decide equality of two keys, exactly mirroring `==` in specifications.
    fn key_eq(&self, other: &Self) -> (r: bool)
        ensures
            r <==> (self == other),
    ;

    /// Produce an identical copy of the key.
    fn dup(&self) -> (r: Self)
        ensures
            r == *self,
    ;
}

impl CacheKey for u64 {
    fn key_eq(&self, other: &Self) -> (r: bool) {
        *self == *other
    }

    fn dup(&self) -> (r: Self) {
        *self
    }
}

impl CacheKey for u32 {
    fn key_eq(&self, other: &Self) -> (r: bool) {
        *self == *other
    }

    fn dup(&self) -> (r: Self) {
        *self
    }
}

impl CacheKey for i32 {
    fn key_eq(&self, other: &Self) -> (r: bool) {
        *self == *other
    }

    fn dup(&self) -> (r: Self) {
        *self
    }
}

impl CacheKey for i64 {
    fn key_eq(&self, other: &Self) -> (r: bool) {
        *self == *other
    }

    fn dup(&self) -> (r: Self) {
        *self
    }
}

impl CacheKey for usize {
    fn key_eq(&self, other: &Self) -> (r: bool) {
        *self == *other
    }

    fn dup(&self) -> (r: Self) {
        *self
    }
}

/// The contract every eviction policy satisfies.
///
/// A policy is a bounded association of keys to values. `lookup` is its
/// abstract content, `spec_len` the number of live entries, `spec_cap` the
/// bound fixed at construction, and `inv` the internal well-formedness that
/// constructors establish and every operation preserves. The one global
/// guarantee is that the number of live entries never exceeds the capacity.
pub trait CachePolicy<K, V>: Sized {
    /// Internal well-formedness of this policy instance.
    spec fn inv(&self) -> bool;

    /// The fixed capacity.
    spec fn spec_cap(&self) -> nat;

    /// The number of live entries.
    spec fn spec_len(&self) -> nat;

    /// The value currently cached under `k`, if any.
    spec fn lookup(&self, k: K) -> Option<V>;

    /// Look up `key`; on a hit the policy may reorder, promote, or (in the
    /// segmented policies) even evict some other entry, but it never changes
    /// any surviving entry's value; on a miss nothing changes.
    fn get(&mut self, key: &K) -> (r: Option<&V>)
        requires
            old(self).inv(),
        ensures
            final(self).inv(),
            final(self).spec_cap() == old(self).spec_cap(),
            (r is Some) <==> (old(self).lookup(*key) is Some),
            r matches Some(v) ==> old(self).lookup(*key) == Some(*v) && final(self).lookup(*key)
                == Some(*v),
            r is None ==> final(self).spec_len() == old(self).spec_len() && forall|k2: K| #[trigger]
                final(self).lookup(k2) == old(self).lookup(k2),
            forall|k2: K|
                (#[trigger] final(self).lookup(k2)) is Some ==> final(self).lookup(k2) == old(self).lookup(k2),
    ;

    /// Insert or update `key`. The key is always cached afterwards, with
    /// exactly the given value; at most the policy's eviction rule removes
    /// other entries, and the capacity bound still holds.
    fn insert(&mut self, key: K, value: V)
        requires
            old(self).inv(),
        ensures
            final(self).inv(),
            final(self).spec_cap() == old(self).spec_cap(),
            final(self).lookup(key) == Some(value),
            final(self).spec_len() <= final(self).spec_cap(),
            forall|k2: K|
                k2 != key && (#[trigger] final(self).lookup(k2)) is Some ==> final(self).lookup(k2)
                    == old(self).lookup(k2),
    ;

    /// Remove `key`, returning its value if present; no other entry changes.
    fn remove(&mut self, key: &K) -> (r: Option<V>)
        requires
            old(self).inv(),
        ensures
            final(self).inv(),
            final(self).spec_cap() == old(self).spec_cap(),
            r == old(self).lookup(*key),
            final(self).lookup(*key) is None,
            r is Some ==> final(self).spec_len() == old(self).spec_len() - 1,
            r is None ==> final(self).spec_len() == old(self).spec_len(),
            forall|k2: K|
                k2 != *key ==> #[trigger] final(self).lookup(k2) == old(self).lookup(k2),
    ;

    /// The number of live entries; it never exceeds the capacity.
    fn len(&self) -> (r: usize)
        requires
            self.inv(),
        ensures
            r == self.spec_len(),
            r <= self.spec_cap(),
    ;

    /// Whether the cache holds no entry.
    fn is_empty(&self) -> (r: bool)
        requires
            self.inv(),
        ensures
            r <==> self.spec_len() == 0,
    {
        self.len() == 0
    }

    /// Release every entry and reset all internal bookkeeping.
    fn clear(&mut self)
        requires
            old(self).inv(),
        ensures
            final(self).inv(),
            final(self).spec_cap() == old(self).spec_cap(),
            final(self).spec_len() == 0,
            forall|k2: K| #[trigger] final(self).lookup(k2) is None,
    ;

    /// The capacity fixed at construction; always at least 1.
    fn capacity(&self) -> (r: usize)
        requires
            self.inv(),
        ensures
            r == self.spec_cap(),
            r >= 1,
    ;
}

/// A predictor of future accesses, consulted by a cache after a hit.
///
/// Implementations learn from the access stream (`update_access_pattern`) and
/// propose keys likely to be wanted next (`predict_next`). The contract
/// promises nothing about the predictions: a policy must work, and keep its
/// own guarantees, whatever comes back.
pub trait PrefetchStrategy<K> {
    /// Predict keys likely to be accessed after `accessed_key`.
    fn predict_next(&mut self, accessed_key: &K) -> Vec<K>;

    /// Record one access so later predictions can use it.
    fn update_access_pattern(&mut self, key: &K);

    /// Forget all learned state.
    fn reset(&mut self);
}

/// A source that can supply the value for a key on demand, used by the
/// combined cache to load predicted or missing entries. Nothing is promised
/// of what it returns: the cache keeps its guarantees for every answer.
pub trait PrefetchSource<K, V> {
    /// Produce the value for `key`, or nothing if it cannot be had.
    fn load(&mut self, key: &K) -> Option<V>;
}

/// The absent source: it never supplies a value.
#[derive(Debug, Clone, Copy, PartialEq, Eq, Structural, Default)]
pub struct NoSource;

impl<K, V> PrefetchSource<K, V> for NoSource {
    /// Supplies nothing.
    fn load(&mut self, _key: &K) -> Option<V> {
        None
    }
}

/// Counters describing how a combined cache has been used.
#[derive(Debug, Clone)]
pub struct CacheStats {
    pub hits: u64,
    pub misses: u64,
    pub prefetch_hits: u64,
    pub total_accesses: u64,
}

impl CacheStats {
    pub open spec fn is_zero(self) -> bool {
        self.hits == 0 && self.misses == 0 && self.prefetch_hits == 0 && self.total_accesses == 0
    }

    /// Reset all tracked statistics to zero.
    pub fn reset(&mut self)
        ensures
            final(self).is_zero(),
    {
        self.hits = 0;
        self.misses = 0;
        self.prefetch_hits = 0;
        self.total_accesses = 0;
    }
}

impl Default for CacheStats {
    /// Fresh counters, all zero.
    fn default() -> (r: Self)
        ensures
            r.is_zero(),
    {
        CacheStats { hits: 0, misses: 0, prefetch_hits: 0, total_accesses: 0 }
    }
}

/// A cache policy combined with a prediction strategy and an optional value
/// source: lookups feed the predictor, hits trigger speculative loading of
/// predicted keys, and misses can be answered by loading on demand. Usage
/// counters are kept throughout.
pub struct FulgranceCache<K, V, C, P, L = NoSource> {
    cache: C,
    prefetch_strategy: P,
    prefetch_fn: Option<L>,
    stats: CacheStats,
    _keys: core::marker::PhantomData<(K, V)>,
}

impl<K, V, C, P, L> FulgranceCache<K, V, C, P, L> {
    /// The wrapped policy instance.
    pub closed spec fn inner(&self) -> C {
        self.cache
    }

    /// The usage counters.
    pub closed spec fn spec_stats(&self) -> CacheStats {
        self.stats
    }

    /// Whether a value source is configured.
    pub closed spec fn has_source(&self) -> bool {
        self.prefetch_fn is Some
    }
}

impl<K, V, C: CachePolicy<K, V>, P, L> FulgranceCache<K, V, C, P, L> {
    pub open spec fn wf(&self) -> bool {
        self.inner().inv()
    }
}

impl<K: CacheKey, V, C: CachePolicy<K, V>, P: PrefetchStrategy<K>> FulgranceCache<
    K,
    V,
    C,
    P,
    NoSource,
> {
    /// Combine a policy instance with a prediction strategy; no value source
    /// is configured yet.
    pub fn new(cache: C, prefetch_strategy: P) -> (r: Self)
        requires
            cache.inv(),
        ensures
            r.wf(),
            r.inner() == cache,
            r.spec_stats().is_zero(),
            !r.has_source(),
    {
        FulgranceCache {
            cache,
            prefetch_strategy,
            prefetch_fn: None,
            stats: CacheStats::default(),
            _keys: core::marker::PhantomData,
        }
    }
}

impl<
    K: CacheKey,
    V: Clone,
    C: CachePolicy<K, V>,
    P: PrefetchStrategy<K>,
    L: PrefetchSource<K, V>,
> FulgranceCache<K, V, C, P, L> {
    /// Configure a source that loads values on demand; everything else is
    /// kept.
    pub fn with_prefetch_fn<L2: PrefetchSource<K, V>>(self, f: L2) -> (r: FulgranceCache<
        K,
        V,
        C,
        P,
        L2,
    >)
        requires
            self.wf(),
        ensures
            r.wf(),
            r.inner() == self.inner(),
            r.spec_stats() == self.spec_stats(),
            r.has_source(),
    {
        FulgranceCache {
            cache: self.cache,
            prefetch_strategy: self.prefetch_strategy,
            prefetch_fn: Some(f),
            stats: self.stats,
            _keys: core::marker::PhantomData,
        }
    }

    /// Load every key the strategy predicts to follow `accessed_key` that is
    /// not already cached, counting each successful speculative load.
    fn prefetch_predicted_keys(&mut self, accessed_key: &K)
        requires
            old(self).wf(),
        ensures
            final(self).wf(),
            final(self).inner().spec_cap() == old(self).inner().spec_cap(),
            final(self).has_source() == old(self).has_source(),
            final(self).spec_stats().hits == old(self).spec_stats().hits,
            final(self).spec_stats().misses == old(self).spec_stats().misses,
            final(self).spec_stats().total_accesses == old(self).spec_stats().total_accesses,
            !old(self).has_source() ==> final(self).inner() == old(self).inner() && final(self).spec_stats() == old(self).spec_stats(),
    {
        if self.prefetch_fn.is_none() {
            return ;
        }
        let predicted = self.prefetch_strategy.predict_next(accessed_key);
        for kp in predicted
            invariant
                self.wf(),
                self.inner().spec_cap() == old(self).inner().spec_cap(),
                self.has_source() == old(self).has_source(),
                self.spec_stats().hits == old(self).spec_stats().hits,
                self.spec_stats().misses == old(self).spec_stats().misses,
                self.spec_stats().total_accesses == old(self).spec_stats().total_accesses,
        {
            if self.cache.get(&kp).is_none() {
                let loaded = match &mut self.prefetch_fn {
                    Some(src) => src.load(&kp),
                    None => None,
                };
                match loaded {
                    Some(v) => {
                        self.cache.insert(kp, v);
                        self.stats.prefetch_hits = sat_inc(self.stats.prefetch_hits);
                    },
                    None => {},
                }
            }
        }
    }

    /// Look up `key`. The access always feeds the predictor and counts
    /// toward the totals; a hit also counts as a hit, triggers speculative
    /// loading of predicted keys, and returns a clone of the cached value; a
    /// miss counts as a miss and, when a source is configured, may still be
    /// answered by loading the value on demand (which also caches a clone of
    /// it). Without a source a miss returns nothing.
    pub fn get(&mut self, key: &K) -> (r: Option<V>)
        requires
            old(self).wf(),
        ensures
            final(self).wf(),
            final(self).inner().spec_cap() == old(self).inner().spec_cap(),
            final(self).spec_stats().total_accesses == spec_sat_inc(
                old(self).spec_stats().total_accesses,
            ),
            old(self).inner().lookup(*key) is Some ==> {
                &&& r is Some
                &&& (r matches Some(v) ==> vstd::pervasive::cloned(
                    old(self).inner().lookup(*key)->0,
                    v,
                ))
                &&& final(self).spec_stats().hits == spec_sat_inc(old(self).spec_stats().hits)
                &&& final(self).spec_stats().misses == old(self).spec_stats().misses
            },
            old(self).inner().lookup(*key) is None ==> {
                &&& final(self).spec_stats().misses == spec_sat_inc(old(self).spec_stats().misses)
                &&& final(self).spec_stats().hits == old(self).spec_stats().hits
            },
            old(self).inner().lookup(*key) is None && !old(self).has_source() ==> r is None,
            old(self).inner().lookup(*key) is None ==> (r matches Some(v) ==> (final(self).inner().lookup(*key) matches Some(c) && vstd::pervasive::cloned(v, c))),
    {
        self.stats.total_accesses = sat_inc(self.stats.total_accesses);
        self.prefetch_strategy.update_access_pattern(key);
        let found: Option<V> = match self.cache.get(key) {
            Some(v) => Some(v.clone()),
            None => None,
        };
        match found {
            Some(out) => {
                self.stats.hits = sat_inc(self.stats.hits);
                self.prefetch_predicted_keys(key);
                Some(out)
            },
            None => {
                self.stats.misses = sat_inc(self.stats.misses);
                let loaded = match &mut self.prefetch_fn {
                    Some(src) => src.load(key),
                    None => None,
                };
                match loaded {
                    Some(value) => {
                        // Speculative loads first; the demanded key is cached
                        // last so it cannot be evicted by its own prefetches.
                        self.prefetch_predicted_keys(key);
                        self.cache.insert(key.dup(), value.clone());
                        Some(value)
                    },
                    None => None,
                }
            },
        }
    }

    /// Insert or update a pair directly in the wrapped policy.
    pub fn insert(&mut self, key: K, value: V)
        requires
            old(self).wf(),
        ensures
            final(self).wf(),
            final(self).inner().spec_cap() == old(self).inner().spec_cap(),
            final(self).inner().lookup(key) == Some(value),
            final(self).inner().spec_len() <= final(self).inner().spec_cap(),
            forall|k2: K|
                k2 != key && (#[trigger] final(self).inner().lookup(k2)) is Some ==> final(self).inner().lookup(k2) == old(self).inner().lookup(k2),
            final(self).spec_stats() == old(self).spec_stats(),
    {
        self.cache.insert(key, value);
    }

    /// Remove a pair from the wrapped policy, returning its value.
    pub fn remove(&mut self, key: &K) -> (r: Option<V>)
        requires
            old(self).wf(),
        ensures
            final(self).wf(),
            final(self).inner().spec_cap() == old(self).inner().spec_cap(),
            r == old(self).inner().lookup(*key),
            final(self).inner().lookup(*key) is None,
            r is Some ==> final(self).inner().spec_len() == old(self).inner().spec_len() - 1,
            r is None ==> final(self).inner().spec_len() == old(self).inner().spec_len(),
            forall|k2: K|
                k2 != *key ==> #[trigger] final(self).inner().lookup(k2) == old(self).inner().lookup(k2),
            final(self).spec_stats() == old(self).spec_stats(),
    {
        self.cache.remove(key)
    }

    /// The usage counters so far.
    pub fn stats(&self) -> (r: &CacheStats)
        ensures
            *r == self.spec_stats(),
    {
        &self.stats
    }

    /// Zero the counters and reset the prediction strategy; cached entries
    /// are untouched.
    pub fn reset_stats(&mut self)
        requires
            old(self).wf(),
        ensures
            final(self).wf(),
            final(self).spec_stats().is_zero(),
            final(self).inner() == old(self).inner(),
    {
        self.stats.reset();
        self.prefetch_strategy.reset();
    }

    /// The number of live entries in the wrapped policy.
    pub fn len(&self) -> (r: usize)
        requires
            self.wf(),
        ensures
            r == self.inner().spec_len(),
            r <= self.inner().spec_cap(),
    {
        self.cache.len()
    }

    /// Whether the wrapped policy holds no entry.
    pub fn is_empty(&self) -> (r: bool)
        requires
            self.wf(),
        ensures
            r <==> self.inner().spec_len() == 0,
    {
        self.cache.len() == 0
    }

    /// Release every cached entry and zero the counters.
    pub fn clear(&mut self)
        requires
            old(self).wf(),
        ensures
            final(self).wf(),
            final(self).inner().spec_len() == 0,
            forall|k2: K| #[trigger] final(self).inner().lookup(k2) is None,
            final(self).spec_stats().is_zero(),
            final(self).inner().spec_cap() == old(self).inner().spec_cap(),
    {
        self.cache.clear();
        self.stats.reset();
        self.prefetch_strategy.reset();
    }
}

} // verus!
