use lru_cache::cache::{get_cache_contents, CacheError, LruCache, LruNode};

#[test]
fn zero_capacity_is_rejected() {
    let result: Result<LruCache<u64>, CacheError> = LruCache::new(0);
    assert_eq!(result.err(), Some(CacheError::ZeroCapacity));
}

#[test]
fn positive_capacity_is_accepted() {
    let cache: LruCache<u64> = LruCache::new(1).unwrap();
    assert!(cache.is_empty());
    assert_eq!(cache.len(), 0);
}

#[test]
fn node_packs_key_and_value() {
    let node = LruNode::new(7, 700u64);
    assert_eq!(node.key, 7);
    assert_eq!(node.value, 700);
}

#[test]
fn capacity_bound_holds_after_every_put() {
    let mut cache: LruCache<u64> = LruCache::new(2).unwrap();
    for k in 0..10u64 {
        cache.put(k, k * 10);
        assert!(cache.len() <= 2);
    }
    assert_eq!(cache.len(), 2);
}

#[test]
fn recency_correctness_evicts_only_the_first() {
    // Capacity 3, four distinct fresh keys: the first is gone, the rest stay.
    let mut cache: LruCache<u64> = LruCache::new(3).unwrap();
    cache.put(1, 10);
    cache.put(2, 20);
    cache.put(3, 30);
    cache.put(4, 40);
    assert_eq!(cache.get(1), None);
    assert_eq!(cache.get(2), Some(&20));
    assert_eq!(cache.get(3), Some(&30));
    assert_eq!(cache.get(4), Some(&40));
}

#[test]
fn promotion_on_read_protects_the_read_key() {
    // Capacity 2: put A, put B, read A, put C: B is evicted, A survives.
    let mut cache: LruCache<u64> = LruCache::new(2).unwrap();
    cache.put(100, 1);
    cache.put(200, 2);
    assert_eq!(cache.get(100), Some(&1));
    cache.put(300, 3);
    assert_eq!(cache.get(200), None);
    assert_eq!(cache.get(100), Some(&1));
    assert_eq!(cache.get(300), Some(&3));
}

#[test]
fn update_in_place_keeps_one_entry() {
    let mut cache: LruCache<u64> = LruCache::new(3).unwrap();
    cache.put(5, 50);
    let len_before = cache.len();
    cache.put(5, 55);
    assert_eq!(cache.len(), len_before);
    assert_eq!(cache.get(5), Some(&55));
    assert_eq!(cache.len(), 1);
}

#[test]
fn miss_changes_nothing() {
    let mut cache: LruCache<u64> = LruCache::new(2).unwrap();
    assert_eq!(cache.get(9), None);
    assert_eq!(cache.len(), 0);
    cache.put(1, 10);
    assert_eq!(cache.get(9), None);
    assert_eq!(cache.len(), 1);
    assert_eq!(get_cache_contents(&cache), vec![(1, 10)]);
}

#[test]
fn eviction_order_with_capacity_three() {
    let mut cache: LruCache<u64> = LruCache::new(3).unwrap();
    cache.put(10, 1);
    cache.put(20, 2);
    cache.put(30, 3);
    cache.put(40, 4);
    // Most recent first; the least-recently-used key 10 was evicted.
    assert_eq!(get_cache_contents(&cache), vec![(40, 4), (30, 3), (20, 2)]);
    assert_eq!(cache.get(10), None);
}

#[test]
fn round_trip_keeps_value_and_length() {
    let mut cache: LruCache<u64> = LruCache::new(2).unwrap();
    cache.put(1, 11);
    cache.put(2, 22);
    let value = *cache.get(1).unwrap();
    cache.put(1, value);
    assert_eq!(cache.get(1), Some(&11));
    assert_eq!(cache.len(), 2);
}

#[test]
fn contents_follow_recency_order() {
    let mut cache: LruCache<u64> = LruCache::new(3).unwrap();
    cache.put(1, 10);
    cache.put(2, 20);
    cache.put(3, 30);
    assert_eq!(get_cache_contents(&cache), vec![(3, 30), (2, 20), (1, 10)]);
    // A read moves its entry to the front.
    cache.get(1);
    assert_eq!(get_cache_contents(&cache), vec![(1, 10), (3, 30), (2, 20)]);
    // An update moves its entry to the front as well.
    cache.put(3, 33);
    assert_eq!(get_cache_contents(&cache), vec![(3, 33), (1, 10), (2, 20)]);
}

#[test]
fn update_promotes_against_eviction() {
    let mut cache: LruCache<u64> = LruCache::new(2).unwrap();
    cache.put(1, 10);
    cache.put(2, 20);
    cache.put(1, 11);
    cache.put(3, 30);
    // Key 2 was least recent at the time key 3 arrived.
    assert_eq!(get_cache_contents(&cache), vec![(3, 30), (1, 11)]);
}

#[test]
fn capacity_one_always_keeps_the_latest() {
    let mut cache: LruCache<u64> = LruCache::new(1).unwrap();
    cache.put(1, 10);
    assert_eq!(cache.get(1), Some(&10));
    cache.put(2, 20);
    assert_eq!(cache.get(1), None);
    assert_eq!(cache.get(2), Some(&20));
    assert_eq!(cache.len(), 1);
}

#[test]
fn evicted_slots_are_reused() {
    // Run far more insertions than the capacity: the arena recycles slots
    // and the cache keeps behaving like a two-entry window.
    let mut cache: LruCache<u64> = LruCache::new(2).unwrap();
    for k in 0..100u64 {
        cache.put(k, k + 1000);
    }
    assert_eq!(get_cache_contents(&cache), vec![(99, 1099), (98, 1098)]);
    assert_eq!(cache.len(), 2);
}

#[test]
fn string_values_are_supported() {
    let mut cache: LruCache<String> = LruCache::new(2).unwrap();
    cache.put(1, String::from("one"));
    cache.put(2, String::from("two"));
    cache.put(1, String::from("uno"));
    assert_eq!(cache.get(1).map(|s| s.as_str()), Some("uno"));
    cache.put(3, String::from("three"));
    assert_eq!(cache.get(2), None);
    assert_eq!(cache.len(), 2);
}
