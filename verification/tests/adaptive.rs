//! Tests of the scan-resistant, adaptive policies: Clock, ARC, CAR, 2Q and
//! SLRU.

use fulgrance::policies::{ArcCache, CarCache, ClockCache, SlruCache, TwoQCache};
use fulgrance::CachePolicy;

#[test]
fn test_clock_second_chance() {
    let mut cache = ClockCache::new(2);

    cache.insert(1, "one");
    cache.insert(2, "two");
    // All bits are set: the sweep clears them and replaces the slot the
    // hand started at, which holds key 1.
    cache.insert(3, "three");
    assert_eq!(cache.get(&1), None);
    assert_eq!(cache.get(&2), Some(&"two"));
    assert_eq!(cache.get(&3), Some(&"three"));

    // Key 3 was installed with its bit set; key 2's bit was cleared by the
    // sweep and its get above set it again, so drop it back down by letting
    // a sweep pass: inserting 4 finds key 2 referenced and key 3 referenced,
    // clears both, and evicts at the hand.
    cache.insert(4, "four");
    assert_eq!(cache.len(), 2);
    assert!(cache.get(&4).is_some());
}

#[test]
fn test_clock_unreferenced_goes_first() {
    let mut cache = ClockCache::new(2);

    cache.insert(1, "one");
    cache.insert(2, "two");
    cache.insert(3, "three"); // evicts 1; clears 2's bit; hand past slot 0

    // Key 3's bit is set (fresh install); key 2's bit is clear. The next
    // eviction must take 2 and spare 3, although 3 is in sweep order first.
    cache.insert(4, "four");
    assert_eq!(cache.get(&2), None);
    assert_eq!(cache.get(&3), Some(&"three"));
    assert_eq!(cache.get(&4), Some(&"four"));
}

#[test]
fn test_arc_ghost_hit_promotes_to_frequent() {
    let mut cache = ArcCache::new(2);

    cache.insert(1, "one");
    cache.insert(2, "two");
    // The cache is full of once-seen keys; inserting 3 demotes the oldest
    // (1) into the B1 history.
    cache.insert(3, "three");
    assert_eq!(cache.get(&1), None);

    // Key 1 is remembered: reinserting it is a B1 ghost hit, and the key
    // comes back as a frequent entry.
    cache.insert(1, "one again");
    assert_eq!(cache.get(&1), Some(&"one again"));
    assert!(cache.len() <= 2);
}

#[test]
fn test_arc_hit_earns_frequency() {
    let mut cache = ArcCache::new(2);

    cache.insert(1, "one");
    cache.insert(2, "two");
    // A second access promotes key 1 from the recency list to the
    // frequency list, so the next eviction prefers key 2.
    cache.get(&1);
    cache.insert(3, "three");

    assert_eq!(cache.get(&1), Some(&"one"));
    assert_eq!(cache.get(&2), None);
}

#[test]
fn test_car_ghost_hit_returns_as_frequent() {
    let mut cache = CarCache::new(2);

    cache.insert(1, "one");
    cache.insert(2, "two");
    cache.insert(3, "three"); // sweeps T1 and demotes key 1 into B1
    assert_eq!(cache.get(&1), None);

    cache.get(&2); // promotes key 2 into T2

    // Key 1 is remembered in B1: reinserting it lands it in T2.
    cache.insert(1, "one again");
    assert_eq!(cache.get(&1), Some(&"one again"));
    assert_eq!(cache.get(&2), Some(&"two"));
    assert_eq!(cache.get(&3), None);
    assert!(cache.len() <= 2);
}

#[test]
fn test_car_referenced_entry_survives_sweep() {
    let mut cache = CarCache::new(2);

    cache.insert(1, "one");
    cache.insert(2, "two");
    // Every bit is set, so the sweep clears them all and evicts key 1; key 3
    // is installed with its bit set while key 2's bit is now clear.
    cache.insert(3, "three");

    // The next eviction must spare the referenced key 3 and take the
    // unreferenced key 2, although 3 sits where the hand starts.
    cache.insert(4, "four");
    assert_eq!(cache.get(&3), Some(&"three"));
    assert_eq!(cache.get(&2), None);
    assert_eq!(cache.get(&4), Some(&"four"));
}

#[test]
fn test_two_q_evicted_key_promotes_to_am() {
    // Capacity 4 splits into one A1 slot and three Am slots, with a
    // two-slot A1out history.
    let mut cache = TwoQCache::new(4);

    cache.insert(1, "one");
    // A1 is full: inserting 2 pushes key 1 into the A1out history.
    cache.insert(2, "two");
    assert_eq!(cache.get(&1), None);

    // Key 1 is remembered: reinserting it goes straight into Am.
    cache.insert(1, "one again");
    assert_eq!(cache.get(&1), Some(&"one again"));

    // A scan of fresh keys churns only A1; the promoted key survives.
    cache.insert(3, "three");
    cache.insert(4, "four");
    cache.insert(5, "five");
    assert_eq!(cache.get(&1), Some(&"one again"));
}

#[test]
fn test_slru_second_access_earns_protection() {
    // Capacity 5 splits into one probationary slot and four protected.
    let mut cache = SlruCache::new(5);

    cache.insert(1, "one");
    // The second access promotes key 1 into the protected segment.
    assert_eq!(cache.get(&1), Some(&"one"));

    // A scan of one-time keys churns the probationary slot only.
    cache.insert(2, "two");
    cache.insert(3, "three");
    cache.insert(4, "four");

    assert_eq!(cache.get(&1), Some(&"one"));
    assert_eq!(cache.get(&2), None);
    assert_eq!(cache.get(&3), None);
}

#[test]
fn test_slru_update_does_not_promote() {
    let mut cache = SlruCache::new(5);

    cache.insert(1, "one");
    // An update overwrites the probationary entry without promoting it.
    cache.insert(1, "ONE");
    // A new key evicts the probationary resident.
    cache.insert(2, "two");

    assert_eq!(cache.get(&1), None);
    assert_eq!(cache.get(&2), Some(&"two"));
}
