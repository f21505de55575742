//! Tests of the combined cache: a policy, a prediction strategy, and an
//! optional value source working together.

use fulgrance::policies::LruCache;
use fulgrance::{FulgranceCache, PrefetchSource, PrefetchStrategy};

/// A simple prediction strategy for testing: predicts the next two
/// sequential keys.
struct TestPrefetchStrategy;

impl PrefetchStrategy<i32> for TestPrefetchStrategy {
    fn predict_next(&mut self, accessed_key: &i32) -> Vec<i32> {
        vec![accessed_key + 1, accessed_key + 2]
    }
    fn update_access_pattern(&mut self, _key: &i32) {}
    fn reset(&mut self) {}
}

/// A value source for testing: serves any key below a bound.
struct TestSource;

impl PrefetchSource<i32, String> for TestSource {
    fn load(&mut self, key: &i32) -> Option<String> {
        if *key < 100 {
            Some(format!("value-{}", key))
        } else {
            None
        }
    }
}

#[test]
fn test_basic_cache_operations() {
    let cache: LruCache<i32, String> = LruCache::new(10);
    let strategy = TestPrefetchStrategy;
    let mut fulgurance = FulgranceCache::new(cache, strategy);

    fulgurance.insert(1, "one".to_string());
    assert_eq!(fulgurance.len(), 1);

    assert_eq!(fulgurance.remove(&1), Some("one".to_string()));
    assert_eq!(fulgurance.len(), 0);
    assert!(fulgurance.is_empty());
}

#[test]
fn test_stats_track_hits_and_misses() {
    let cache: LruCache<i32, String> = LruCache::new(10);
    let mut combined = FulgranceCache::new(cache, TestPrefetchStrategy);

    combined.insert(1, "one".to_string());
    assert_eq!(combined.get(&1), Some("one".to_string()));
    assert_eq!(combined.get(&2), None);
    assert_eq!(combined.get(&1), Some("one".to_string()));

    let stats = combined.stats();
    assert_eq!(stats.total_accesses, 3);
    assert_eq!(stats.hits, 2);
    assert_eq!(stats.misses, 1);

    combined.reset_stats();
    let stats = combined.stats();
    assert_eq!(stats.total_accesses, 0);
    assert_eq!(stats.hits, 0);
    assert_eq!(stats.misses, 0);
}

#[test]
fn test_source_answers_misses() {
    let cache: LruCache<i32, String> = LruCache::new(10);
    let mut combined = FulgranceCache::new(cache, TestPrefetchStrategy).with_prefetch_fn(
        TestSource,
    );

    // The key is absent, but the source can supply it.
    assert_eq!(combined.get(&7), Some("value-7".to_string()));
    // The loaded value was cached, so it is now a plain hit.
    assert_eq!(combined.get(&7), Some("value-7".to_string()));
    // A key the source cannot supply stays a miss.
    assert_eq!(combined.get(&500), None);
}

#[test]
fn test_hit_prefetches_predicted_keys() {
    let cache: LruCache<i32, String> = LruCache::new(10);
    let mut combined = FulgranceCache::new(cache, TestPrefetchStrategy).with_prefetch_fn(
        TestSource,
    );

    combined.insert(10, "ten".to_string());
    // The hit on 10 predicts 11 and 12, which the source supplies.
    assert_eq!(combined.get(&10), Some("ten".to_string()));
    assert_eq!(combined.len(), 3);
    assert_eq!(combined.stats().prefetch_hits, 2);
}

#[test]
fn test_clear_resets_everything() {
    let cache: LruCache<i32, String> = LruCache::new(10);
    let mut combined = FulgranceCache::new(cache, TestPrefetchStrategy);

    combined.insert(1, "one".to_string());
    combined.insert(2, "two".to_string());
    assert_eq!(combined.get(&1), Some("one".to_string()));

    combined.clear();
    assert_eq!(combined.len(), 0);
    assert!(combined.is_empty());
    assert_eq!(combined.get(&1), None);
    // The get after clear counted as the only access.
    assert_eq!(combined.stats().total_accesses, 1);
}
