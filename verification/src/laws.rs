//! The guarantees shared by every eviction policy, each stated once over the
//! `CachePolicy` contract and checked by the verifier for all ten policies
//! (and any future implementation) at once. Each function here is an
//! executable witness: its contract is the stated law, and its body proves
//! the law from the policy contract alone.

use vstd::prelude::*;
use crate::{CacheKey, CachePolicy};

verus! {

/// The number of live entries never exceeds the capacity, in any reachable
/// state of any policy.
pub fn occupancy_within_capacity<K, V, C: CachePolicy<K, V>>(cache: &C) -> (r: (usize, usize))
    requires
        cache.inv(),
    ensures
        r.0 <= r.1,
        r.0 == cache.spec_len(),
        r.1 == cache.spec_cap(),
{
    (cache.len(), cache.capacity())
}

/// Inserting a key and immediately looking it up returns exactly the
/// inserted value, whatever the policy evicted to make room.
pub fn inserted_key_is_found<K: CacheKey, V, C: CachePolicy<K, V>>(
    cache: &mut C,
    key: K,
    value: V,
) -> (r: Option<&V>)
    requires
        old(cache).inv(),
    ensures
        final(cache).inv(),
        r is Some,
        r matches Some(v) ==> *v == value,
{
    let probe = key.dup();
    cache.insert(key, value);
    cache.get(&probe)
}

/// Removing a key right after inserting it hands the inserted value back,
/// and a subsequent lookup finds nothing.
pub fn insert_remove_round_trip<K: CacheKey, V, C: CachePolicy<K, V>>(
    cache: &mut C,
    key: K,
    value: V,
) -> (r: (Option<V>, bool))
    requires
        old(cache).inv(),
    ensures
        final(cache).inv(),
        r.0 == Some(value),
        r.1,
{
    let probe = key.dup();
    let probe2 = key.dup();
    cache.insert(key, value);
    let removed = cache.remove(&probe);
    let found_after = cache.get(&probe2);
    (removed, found_after.is_none())
}

/// After `clear` the cache is empty and every lookup, of any key, finds
/// nothing.
pub fn cleared_cache_forgets<K: CacheKey, V, C: CachePolicy<K, V>>(cache: &mut C, probe: K) -> (r:
    (usize, bool))
    requires
        old(cache).inv(),
    ensures
        final(cache).inv(),
        r.0 == 0,
        r.1,
{
    cache.clear();
    let n = cache.len();
    let found = cache.get(&probe);
    (n, found.is_none())
}

} // verus!
