//! The policy identifiers, the strategy identifiers, and the laws shared by
//! every policy, exercised on concrete values for each implementation.

use fulgrance::laws::{
    cleared_cache_forgets, insert_remove_round_trip, inserted_key_is_found,
    occupancy_within_capacity,
};
use fulgrance::policies::{
    ArcCache, CarCache, ClockCache, FifoCache, LfuCache, LruCache, MruCache, PolicyType,
    RandomCache, SlruCache, TwoQCache,
};
use fulgrance::prefetch::{NoPrefetch, PrefetchType};
use fulgrance::{CachePolicy, PrefetchStrategy};

#[test]
fn test_prefetch_type_properties() {
    assert_eq!(PrefetchType::Sequential.name(), "Sequential");
    assert_eq!(PrefetchType::Markov.name(), "Markov");
    assert_eq!(PrefetchType::Stride.name(), "Stride");
    assert_eq!(PrefetchType::HistoryBased.name(), "HistoryBased");
    assert_eq!(PrefetchType::Adaptive.name(), "Adaptive");
    assert_eq!(PrefetchType::Disabled.name(), "None");

    assert!(PrefetchType::Sequential.description().contains("sequential"));
    assert!(PrefetchType::Markov.description().contains("Markov"));
    assert!(PrefetchType::Stride.description().contains("stride"));
    assert!(PrefetchType::HistoryBased.description().contains("historical"));
    assert!(PrefetchType::Adaptive.description().contains("combines"));
    assert!(PrefetchType::Disabled.description().contains("baseline"));
}

#[test]
fn test_all_prefetch_types_listed() {
    let all_types = PrefetchType::all();
    assert!(all_types.contains(&PrefetchType::Sequential));
    assert!(all_types.contains(&PrefetchType::Markov));
    assert!(all_types.contains(&PrefetchType::Stride));
    assert!(all_types.contains(&PrefetchType::HistoryBased));
    assert!(all_types.contains(&PrefetchType::Adaptive));
    assert!(all_types.contains(&PrefetchType::Disabled));
    assert_eq!(all_types.len(), 6);
}

#[test]
fn test_no_prefetch_strategy() {
    let mut strategy = NoPrefetch;
    strategy.update_access_pattern(&42);
    assert!(strategy.predict_next(&42).is_empty());
    <NoPrefetch as PrefetchStrategy<i32>>::reset(&mut strategy);
}

#[test]
fn test_policy_type_properties() {
    assert_eq!(PolicyType::Lru.name(), "LRU");
    assert_eq!(PolicyType::Mru.name(), "MRU");
    assert_eq!(PolicyType::Fifo.name(), "FIFO");
    assert_eq!(PolicyType::Lfu.name(), "LFU");
    assert_eq!(PolicyType::Random.name(), "Random");
    assert_eq!(PolicyType::Arc.name(), "ARC");
    assert_eq!(PolicyType::Clock.name(), "Clock");
    assert_eq!(PolicyType::TwoQ.name(), "2Q");
    assert_eq!(PolicyType::Slru.name(), "SLRU");
    assert_eq!(PolicyType::Car.name(), "CAR");

    assert_eq!(PolicyType::all().len(), 10);
    assert_eq!(PolicyType::advanced().len(), 4);
    assert_eq!(PolicyType::simple().len(), 4);

    assert!(PolicyType::Arc.is_adaptive());
    assert!(PolicyType::Car.is_adaptive());
    assert!(!PolicyType::Lru.is_adaptive());
    assert!(PolicyType::TwoQ.is_scan_resistant());
    assert!(PolicyType::Slru.is_scan_resistant());
    assert!(!PolicyType::Fifo.is_scan_resistant());
}

#[test]
fn test_inserted_key_is_found_for_every_policy() {
    assert_eq!(inserted_key_is_found(&mut LruCache::new(2), 1, "v"), Some(&"v"));
    assert_eq!(inserted_key_is_found(&mut MruCache::new(2), 1, "v"), Some(&"v"));
    assert_eq!(inserted_key_is_found(&mut FifoCache::new(2), 1, "v"), Some(&"v"));
    assert_eq!(inserted_key_is_found(&mut LfuCache::new(2), 1, "v"), Some(&"v"));
    assert_eq!(inserted_key_is_found(&mut RandomCache::new(2), 1, "v"), Some(&"v"));
    assert_eq!(inserted_key_is_found(&mut ClockCache::new(2), 1, "v"), Some(&"v"));
    assert_eq!(inserted_key_is_found(&mut ArcCache::new(2), 1, "v"), Some(&"v"));
    assert_eq!(inserted_key_is_found(&mut CarCache::new(2), 1, "v"), Some(&"v"));
    assert_eq!(inserted_key_is_found(&mut TwoQCache::new(2), 1, "v"), Some(&"v"));
    assert_eq!(inserted_key_is_found(&mut SlruCache::new(2), 1, "v"), Some(&"v"));
}

#[test]
fn test_round_trip_for_every_policy() {
    assert_eq!(insert_remove_round_trip(&mut LruCache::new(2), 1, "v"), (Some("v"), true));
    assert_eq!(insert_remove_round_trip(&mut MruCache::new(2), 1, "v"), (Some("v"), true));
    assert_eq!(insert_remove_round_trip(&mut FifoCache::new(2), 1, "v"), (Some("v"), true));
    assert_eq!(insert_remove_round_trip(&mut LfuCache::new(2), 1, "v"), (Some("v"), true));
    assert_eq!(insert_remove_round_trip(&mut RandomCache::new(2), 1, "v"), (Some("v"), true));
    assert_eq!(insert_remove_round_trip(&mut ClockCache::new(2), 1, "v"), (Some("v"), true));
    assert_eq!(insert_remove_round_trip(&mut ArcCache::new(2), 1, "v"), (Some("v"), true));
    assert_eq!(insert_remove_round_trip(&mut CarCache::new(2), 1, "v"), (Some("v"), true));
    assert_eq!(insert_remove_round_trip(&mut TwoQCache::new(2), 1, "v"), (Some("v"), true));
    assert_eq!(insert_remove_round_trip(&mut SlruCache::new(2), 1, "v"), (Some("v"), true));
}

#[test]
fn test_clear_forgets_for_every_policy() {
    let mut lru = LruCache::new(3);
    lru.insert(1, "a");
    lru.insert(2, "b");
    assert_eq!(cleared_cache_forgets(&mut lru, 1), (0, true));

    let mut arc = ArcCache::new(3);
    arc.insert(1, "a");
    arc.insert(2, "b");
    arc.get(&1);
    assert_eq!(cleared_cache_forgets(&mut arc, 1), (0, true));

    let mut car = CarCache::new(3);
    car.insert(1, "a");
    car.insert(2, "b");
    car.get(&1);
    assert_eq!(cleared_cache_forgets(&mut car, 1), (0, true));

    let mut two_q = TwoQCache::new(4);
    two_q.insert(1, "a");
    two_q.insert(2, "b");
    assert_eq!(cleared_cache_forgets(&mut two_q, 2), (0, true));

    let mut slru = SlruCache::new(5);
    slru.insert(1, "a");
    slru.get(&1);
    assert_eq!(cleared_cache_forgets(&mut slru, 1), (0, true));
}

#[test]
fn test_occupancy_bound_under_overflow() {
    // Hammer each policy past its capacity and watch the bound hold.
    let mut lru = LruCache::new(3);
    let mut mru = MruCache::new(3);
    let mut fifo = FifoCache::new(3);
    let mut lfu = LfuCache::new(3);
    let mut random = RandomCache::new(3);
    let mut clock = ClockCache::new(3);
    let mut arc = ArcCache::new(3);
    let mut car = CarCache::new(3);
    let mut two_q = TwoQCache::new(3);
    let mut slru = SlruCache::new(3);
    for i in 0..20 {
        lru.insert(i, i);
        mru.insert(i, i);
        fifo.insert(i, i);
        lfu.insert(i, i);
        random.insert(i, i);
        clock.insert(i, i);
        arc.insert(i, i);
        car.insert(i, i);
        two_q.insert(i, i);
        slru.insert(i, i);
        if i % 3 == 0 {
            lru.get(&(i / 2));
            arc.get(&(i / 2));
            car.get(&(i / 2));
            two_q.get(&(i / 2));
            slru.get(&(i / 2));
        }
    }
    let (n, c) = occupancy_within_capacity(&lru);
    assert!(n <= c);
    let (n, c) = occupancy_within_capacity(&mru);
    assert!(n <= c);
    let (n, c) = occupancy_within_capacity(&fifo);
    assert!(n <= c);
    let (n, c) = occupancy_within_capacity(&lfu);
    assert!(n <= c);
    let (n, c) = occupancy_within_capacity(&random);
    assert!(n <= c);
    let (n, c) = occupancy_within_capacity(&clock);
    assert!(n <= c);
    let (n, c) = occupancy_within_capacity(&arc);
    assert!(n <= c);
    let (n, c) = occupancy_within_capacity(&car);
    assert!(n <= c);
    let (n, c) = occupancy_within_capacity(&two_q);
    assert!(n <= c);
    let (n, c) = occupancy_within_capacity(&slru);
    assert!(n <= c);
}

#[test]
fn test_prefetch_stats_count_predictions() {
    // NoPrefetch predicts nothing, so the counters stay at zero even across
    // many hits.
    let mut cache = FifoCache::new(4);
    cache.insert(1, "one");
    cache.get(&1);
    cache.get(&1);
    let stats = cache.prefetch_stats();
    assert_eq!(stats.predictions_made, 0);
    assert_eq!(stats.cache_hits_from_prefetch, 0);

    cache.reset_prefetch_stats();
    assert_eq!(cache.prefetch_stats().predictions_made, 0);
}

#[test]
fn test_capacity_one_edge_case() {
    // The smallest legal capacity exercises the degenerate segment splits.
    let mut lru = LruCache::new(1);
    let mut mru = MruCache::new(1);
    let mut fifo = FifoCache::new(1);
    let mut lfu = LfuCache::new(1);
    let mut random = RandomCache::new(1);
    let mut clock = ClockCache::new(1);
    let mut arc = ArcCache::new(1);
    let mut car = CarCache::new(1);
    let mut two_q = TwoQCache::new(1);
    let mut slru = SlruCache::new(1);
    for i in 0..6 {
        lru.insert(i, i);
        mru.insert(i, i);
        fifo.insert(i, i);
        lfu.insert(i, i);
        random.insert(i, i);
        clock.insert(i, i);
        arc.insert(i, i);
        car.insert(i, i);
        two_q.insert(i, i);
        slru.insert(i, i);
        lru.get(&i);
        arc.get(&i);
        car.get(&i);
        two_q.get(&i);
        slru.get(&i);
    }
    assert!(lru.len() <= 1);
    assert!(mru.len() <= 1);
    assert!(fifo.len() <= 1);
    assert!(lfu.len() <= 1);
    assert!(random.len() <= 1);
    assert!(clock.len() <= 1);
    assert!(arc.len() <= 1);
    assert!(car.len() <= 1);
    assert!(two_q.len() <= 1);
    assert!(slru.len() <= 1);
    assert_eq!(lru.get(&5), Some(&5));
}
