//! Tests of the baseline policies: LRU, MRU, FIFO, LFU and Random.

use fulgrance::policies::{FifoCache, LfuCache, LruCache, MruCache, RandomCache};
use fulgrance::CachePolicy;

#[test]
fn test_lru_basic_operations() {
    let mut cache = LruCache::new(3);

    cache.insert(1, "one");
    cache.insert(2, "two");
    cache.insert(3, "three");

    assert_eq!(cache.len(), 3);
    assert_eq!(cache.get(&1), Some(&"one"));
    assert_eq!(cache.get(&2), Some(&"two"));
    assert_eq!(cache.get(&3), Some(&"three"));
}

#[test]
fn test_lru_eviction() {
    let mut cache = LruCache::new(2);

    cache.insert(1, "one");
    cache.insert(2, "two");

    // This should evict key 1 (least recently used).
    cache.insert(3, "three");

    assert_eq!(cache.len(), 2);
    assert_eq!(cache.get(&1), None);
    assert_eq!(cache.get(&2), Some(&"two"));
    assert_eq!(cache.get(&3), Some(&"three"));
}

#[test]
fn test_lru_access_order() {
    let mut cache = LruCache::new(3);

    cache.insert(1, "one");
    cache.insert(2, "two");
    cache.insert(3, "three");

    // Access key 1 to make it most recently used.
    cache.get(&1);

    // Insert a new item; key 2 is now the least recently used.
    cache.insert(4, "four");

    assert_eq!(cache.get(&1), Some(&"one"));
    assert_eq!(cache.get(&2), None);
    assert_eq!(cache.get(&3), Some(&"three"));
    assert_eq!(cache.get(&4), Some(&"four"));
}

#[test]
fn test_lru_update_existing() {
    let mut cache = LruCache::new(2);

    cache.insert(1, "one");
    cache.insert(2, "two");

    cache.insert(1, "ONE");

    assert_eq!(cache.len(), 2);
    assert_eq!(cache.get(&1), Some(&"ONE"));
    assert_eq!(cache.get(&2), Some(&"two"));
}

#[test]
fn test_lru_remove() {
    let mut cache = LruCache::new(3);

    cache.insert(1, "one");
    cache.insert(2, "two");

    assert_eq!(cache.remove(&1), Some("one"));
    assert_eq!(cache.len(), 1);
    assert_eq!(cache.get(&1), None);
    assert_eq!(cache.get(&2), Some(&"two"));
}

#[test]
fn test_lru_clear() {
    let mut cache = LruCache::new(3);

    cache.insert(1, "one");
    cache.insert(2, "two");
    cache.insert(3, "three");

    cache.clear();

    assert_eq!(cache.len(), 0);
    assert!(cache.is_empty());
    assert_eq!(cache.get(&1), None);
}

#[test]
fn test_random_basic_operations() {
    let mut cache = RandomCache::new(3);
    cache.insert(1, "one");
    cache.insert(2, "two");
    cache.insert(3, "three");
    assert_eq!(cache.len(), 3);
    assert_eq!(cache.get(&1), Some(&"one"));
    assert_eq!(cache.get(&2), Some(&"two"));
    assert_eq!(cache.get(&3), Some(&"three"));
}

#[test]
fn test_random_eviction() {
    let mut cache = RandomCache::new(2);
    cache.insert(1, "one");
    cache.insert(2, "two");
    cache.insert(3, "three"); // triggers random eviction
    assert_eq!(cache.len(), 2);
    let one_present = cache.get(&1).is_some();
    let two_present = cache.get(&2).is_some();
    let three_present = cache.get(&3).is_some();
    // At least one of the first two keys remains.
    assert!(one_present || two_present);
    // The new key must be present.
    assert!(three_present);
}

#[test]
fn test_random_update_existing() {
    let mut cache = RandomCache::new(2);
    cache.insert(1, "one");
    cache.insert(2, "two");
    cache.insert(1, "ONE"); // update key 1
    assert_eq!(cache.get(&1), Some(&"ONE"));
    assert_eq!(cache.len(), 2);
}

#[test]
fn test_random_remove() {
    let mut cache = RandomCache::new(3);
    cache.insert(1, "one");
    cache.insert(2, "two");
    assert_eq!(cache.remove(&1), Some("one"));
    assert_eq!(cache.len(), 1);
    assert_eq!(cache.get(&1), None);
    assert_eq!(cache.get(&2), Some(&"two"));
}

#[test]
fn test_random_clear() {
    let mut cache = RandomCache::new(3);
    cache.insert(1, "one");
    cache.insert(2, "two");
    cache.clear();
    assert_eq!(cache.len(), 0);
    assert!(cache.get(&1).is_none());
}

#[test]
fn test_mru_evicts_most_recent() {
    let mut cache = MruCache::new(2);

    cache.insert(1, "one");
    cache.insert(2, "two");
    // The cache is full; the most recently used key (2) is evicted, not 1.
    cache.insert(3, "three");

    assert_eq!(cache.get(&1), Some(&"one"));
    assert_eq!(cache.get(&2), None);
    assert_eq!(cache.get(&3), Some(&"three"));
}

#[test]
fn test_fifo_get_never_reorders() {
    let mut cache = FifoCache::new(2);

    cache.insert(1, "one");
    cache.insert(2, "two");
    // Accessing key 1 gives it no protection under FIFO.
    assert_eq!(cache.get(&1), Some(&"one"));
    cache.insert(3, "three");

    // Key 1 is still the earliest inserted, so it went first.
    assert_eq!(cache.get(&1), None);
    assert_eq!(cache.get(&2), Some(&"two"));
    assert_eq!(cache.get(&3), Some(&"three"));
}

#[test]
fn test_fifo_update_keeps_position() {
    let mut cache = FifoCache::new(2);

    cache.insert(1, "one");
    cache.insert(2, "two");
    // Updating key 1 does not move it to the back of the queue.
    cache.insert(1, "ONE");
    cache.insert(3, "three");

    assert_eq!(cache.get(&1), None);
    assert_eq!(cache.get(&2), Some(&"two"));
    assert_eq!(cache.get(&3), Some(&"three"));
}

#[test]
fn test_lfu_evicts_least_frequent() {
    let mut cache = LfuCache::new(2);

    cache.insert(1, "one");
    cache.insert(2, "two");
    // Key 1 now has two accesses, key 2 only one.
    cache.get(&1);
    cache.insert(3, "three");

    // Key 2 held the minimum frequency, so it was evicted.
    assert_eq!(cache.get(&2), None);
    assert_eq!(cache.get(&1), Some(&"one"));
    assert_eq!(cache.get(&3), Some(&"three"));
}

#[test]
fn test_lfu_ties_broken_by_age() {
    let mut cache = LfuCache::new(2);

    cache.insert(1, "one");
    cache.insert(2, "two");
    // Both hold frequency 1; the older key (1) is evicted first.
    cache.insert(3, "three");

    assert_eq!(cache.get(&1), None);
    assert_eq!(cache.get(&2), Some(&"two"));
    assert_eq!(cache.get(&3), Some(&"three"));
}

#[test]
fn test_default_capacity_is_one_hundred() {
    let lru: LruCache<u64, u64> = LruCache::with_default_capacity();
    let mru: MruCache<u64, u64> = MruCache::with_default_capacity();
    let fifo: FifoCache<u64, u64> = FifoCache::with_default_capacity();
    let lfu: LfuCache<u64, u64> = LfuCache::with_default_capacity();
    let random: RandomCache<u64, u64> = RandomCache::with_default_capacity();
    assert_eq!(lru.capacity(), 100);
    assert_eq!(mru.capacity(), 100);
    assert_eq!(fifo.capacity(), 100);
    assert_eq!(lfu.capacity(), 100);
    assert_eq!(random.capacity(), 100);
}
