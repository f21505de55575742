//! The eviction policies and the identifiers callers select them by.

use vstd::prelude::*;

pub mod arc;
pub mod car;
pub mod clock;
pub mod fifo;
pub mod lfu;
pub mod lru;
pub mod mru;
pub mod random;
pub mod slru;
pub mod two_q;

pub use lru::LruCache;
pub use mru::MruCache;
pub use fifo::FifoCache;
pub use random::RandomCache;
pub use lfu::LfuCache;
pub use clock::ClockCache;
pub use arc::ArcCache;
pub use two_q::TwoQCache;
pub use slru::SlruCache;
pub use car::CarCache;

verus! {

/// The closed set of eviction policies this crate offers.
#[derive(Debug, Clone, Copy, PartialEq, Eq, Structural, Hash)]
pub enum PolicyType {
    Lru,
    Mru,
    Fifo,
    Lfu,
    Random,
    Arc,
    Clock,
    TwoQ,
    Slru,
    Car,
}

impl PolicyType {
    /// The display name of the policy.
    pub fn name(&self) -> (r: &'static str)
        ensures
            *self == PolicyType::Lru ==> r@ == "LRU"@,
            *self == PolicyType::Mru ==> r@ == "MRU"@,
            *self == PolicyType::Fifo ==> r@ == "FIFO"@,
            *self == PolicyType::Lfu ==> r@ == "LFU"@,
            *self == PolicyType::Random ==> r@ == "Random"@,
            *self == PolicyType::Arc ==> r@ == "ARC"@,
            *self == PolicyType::Clock ==> r@ == "Clock"@,
            *self == PolicyType::TwoQ ==> r@ == "2Q"@,
            *self == PolicyType::Slru ==> r@ == "SLRU"@,
            *self == PolicyType::Car ==> r@ == "CAR"@,
    {
        match self {
            PolicyType::Lru => "LRU",
            PolicyType::Mru => "MRU",
            PolicyType::Fifo => "FIFO",
            PolicyType::Lfu => "LFU",
            PolicyType::Random => "Random",
            PolicyType::Arc => "ARC",
            PolicyType::Clock => "Clock",
            PolicyType::TwoQ => "2Q",
            PolicyType::Slru => "SLRU",
            PolicyType::Car => "CAR",
        }
    }

    /// A one-line behavioral description.
    pub fn description(&self) -> (r: &'static str)
        ensures
            *self == PolicyType::Lru ==> r@ == "Evicts the least recently used item"@,
            *self == PolicyType::Mru ==> r@ == "Evicts the most recently used item"@,
            *self == PolicyType::Fifo ==> r@ == "Evicts items in first-in-first-out order"@,
            *self == PolicyType::Lfu ==> r@ == "Evicts the least frequently used item"@,
            *self == PolicyType::Random ==> r@ == "Evicts a random item"@,
            *self == PolicyType::Arc ==> r@ == "Adaptively balances between recency and frequency"@,
            *self == PolicyType::Clock ==> r@
                == "Uses circular buffer with reference bits for approximated LRU"@,
            *self == PolicyType::TwoQ ==> r@
                == "Two-queue combining FIFO & LRU for scan resistance"@,
            *self == PolicyType::Slru ==> r@
                == "Segmented LRU with probationary and protected segments"@,
            *self == PolicyType::Car ==> r@ == "Clock with adaptive replacement like ARC"@,
    {
        match self {
            PolicyType::Lru => "Evicts the least recently used item",
            PolicyType::Mru => "Evicts the most recently used item",
            PolicyType::Fifo => "Evicts items in first-in-first-out order",
            PolicyType::Lfu => "Evicts the least frequently used item",
            PolicyType::Random => "Evicts a random item",
            PolicyType::Arc => "Adaptively balances between recency and frequency",
            PolicyType::Clock => "Uses circular buffer with reference bits for approximated LRU",
            PolicyType::TwoQ => "Two-queue combining FIFO & LRU for scan resistance",
            PolicyType::Slru => "Segmented LRU with probationary and protected segments",
            PolicyType::Car => "Clock with adaptive replacement like ARC",
        }
    }

    /// Every policy, in a fixed order.
    pub fn all() -> (r: Vec<PolicyType>)
        ensures
            r@ == seq![
                PolicyType::Lru,
                PolicyType::Mru,
                PolicyType::Fifo,
                PolicyType::Lfu,
                PolicyType::Random,
                PolicyType::Arc,
                PolicyType::Clock,
                PolicyType::TwoQ,
                PolicyType::Slru,
                PolicyType::Car,
            ],
    {
        let r = vec![
            PolicyType::Lru,
            PolicyType::Mru,
            PolicyType::Fifo,
            PolicyType::Lfu,
            PolicyType::Random,
            PolicyType::Arc,
            PolicyType::Clock,
            PolicyType::TwoQ,
            PolicyType::Slru,
            PolicyType::Car,
        ];
        proof {
            assert(r@ =~= seq![
                PolicyType::Lru,
                PolicyType::Mru,
                PolicyType::Fifo,
                PolicyType::Lfu,
                PolicyType::Random,
                PolicyType::Arc,
                PolicyType::Clock,
                PolicyType::TwoQ,
                PolicyType::Slru,
                PolicyType::Car,
            ]);
        }
        r
    }

    /// The second-generation, multi-list policies.
    pub fn advanced() -> (r: Vec<PolicyType>)
        ensures
            r@ == seq![PolicyType::Arc, PolicyType::TwoQ, PolicyType::Slru, PolicyType::Car],
    {
        let r = vec![PolicyType::Arc, PolicyType::TwoQ, PolicyType::Slru, PolicyType::Car];
        proof {
            assert(r@ =~= seq![
                PolicyType::Arc,
                PolicyType::TwoQ,
                PolicyType::Slru,
                PolicyType::Car,
            ]);
        }
        r
    }

    /// The single-list baseline policies.
    pub fn simple() -> (r: Vec<PolicyType>)
        ensures
            r@ == seq![PolicyType::Lru, PolicyType::Fifo, PolicyType::Clock, PolicyType::Random],
    {
        let r = vec![PolicyType::Lru, PolicyType::Fifo, PolicyType::Clock, PolicyType::Random];
        proof {
            assert(r@ =~= seq![
                PolicyType::Lru,
                PolicyType::Fifo,
                PolicyType::Clock,
                PolicyType::Random,
            ]);
        }
        r
    }

    /// Whether the policy tunes itself with a ghost-hit-driven parameter.
    pub fn is_adaptive(&self) -> (r: bool)
        ensures
            r <==> (*self == PolicyType::Arc || *self == PolicyType::Car),
    {
        matches!(self, PolicyType::Arc | PolicyType::Car)
    }

    /// Whether a burst of one-time accesses cannot flush the whole cache.
    pub fn is_scan_resistant(&self) -> (r: bool)
        ensures
            r <==> (*self == PolicyType::Arc || *self == PolicyType::TwoQ || *self
                == PolicyType::Slru || *self == PolicyType::Car),
    {
        matches!(self, PolicyType::Arc | PolicyType::TwoQ | PolicyType::Slru | PolicyType::Car)
    }
}

/// Counters describing how well prediction served a policy instance.
#[derive(Debug, Clone)]
pub struct PrefetchStats {
    /// Number of predictions the strategy produced.
    pub predictions_made: u64,
    /// Times a prefetched key was later accessed.
    pub prefetch_hits: u64,
    /// Times a prefetched key was never used.
    pub prefetch_misses: u64,
    /// Accesses served directly from prefetched values.
    pub cache_hits_from_prefetch: u64,
}

impl PrefetchStats {
    pub open spec fn is_zero(self) -> bool {
        self.predictions_made == 0 && self.prefetch_hits == 0 && self.prefetch_misses == 0
            && self.cache_hits_from_prefetch == 0
    }
}

/// Feed one confirmed access to a strategy, collect its predictions, and
/// account for them in the counters. The policies have no data source of
/// their own, so predicted values are never loaded; a prediction only counts
/// toward the statistics, exactly as many as the strategy produced. Returns
/// how many predictions were made.
pub fn record_prediction_round<K, P: crate::PrefetchStrategy<K>>(
    strategy: &mut P,
    stats: &mut PrefetchStats,
    key: &K,
) -> (n: usize)
    ensures
        final(stats).predictions_made == crate::spec_sat_add(
            old(stats).predictions_made,
            n as u64,
        ),
        final(stats).prefetch_hits == old(stats).prefetch_hits,
        final(stats).prefetch_misses == old(stats).prefetch_misses,
        final(stats).cache_hits_from_prefetch == old(stats).cache_hits_from_prefetch,
{
    strategy.update_access_pattern(key);
    let predictions = strategy.predict_next(key);
    let n = predictions.len();
    stats.predictions_made = crate::sat_add(stats.predictions_made, n as u64);
    n
}

impl Default for PrefetchStats {
    /// Fresh counters, all zero.
    fn default() -> (r: Self)
        ensures
            r.is_zero(),
    {
        PrefetchStats {
            predictions_made: 0,
            prefetch_hits: 0,
            prefetch_misses: 0,
            cache_hits_from_prefetch: 0,
        }
    }
}

} // verus!
