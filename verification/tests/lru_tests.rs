use lru_cache::lru::LruCache;

fn make_small_cache() -> LruCache<i32, &'static str> {
    LruCache::new(2)
}

#[test]
fn basic_eviction_and_order() {
    let mut cache = LruCache::new(2);
    cache.put(1, "a");
    cache.put(2, "b");
    assert_eq!(cache.get(&1), Some("a"));
    cache.put(3, "c");
    assert_eq!(cache.get(&2), None, "2 should have been evicted as LRU");
    assert_eq!(cache.get(&1), Some("a"));
    assert_eq!(cache.get(&3), Some("c"));
}

#[test]
fn len_and_is_empty_behave() {
    let mut cache: LruCache<i32, i32> = LruCache::new(1);
    assert!(cache.is_empty());
    cache.put(7, 9);
    assert_eq!(cache.len(), 1);
    assert!(!cache.is_empty());
}

#[test]
fn lru_eviction_evicts_least_recent_when_over_capacity() {
    let mut cache = make_small_cache();
    cache.put(1, "a");
    cache.put(2, "b");
    // Touch 1 so 2 becomes LRU
    assert_eq!(cache.get(&1), Some("a"), "expected hit for key 1");
    cache.put(3, "c"); // evicts 2
    assert_eq!(cache.get(&2), None, "key 2 should have been evicted");
    assert_eq!(cache.get(&1), Some("a"), "key 1 should remain");
    assert_eq!(cache.get(&3), Some("c"), "key 3 should be present");
}

#[test]
fn update_existing_moves_to_front_and_updates_value() {
    let mut cache = make_small_cache();
    cache.put(1, "x");
    cache.put(2, "y");
    cache.put(1, "z"); // update value and move to MRU
    cache.put(3, "w"); // evicts 2 now
    assert_eq!(
        cache.get(&2),
        None,
        "2 should be evicted after 1 was updated"
    );
    assert_eq!(cache.get(&1), Some("z"), "updated value should be returned");
}

#[test]
fn len_and_is_empty_reflect_state() {
    let mut c: LruCache<i32, i32> = LruCache::new(1);
    assert!(c.is_empty(), "new cache should be empty");
    c.put(7, 7);
    assert_eq!(c.len(), 1, "len should report 1 after single put");
    assert!(!c.is_empty(), "cache should not be empty after put");
}

#[test]
fn debug_order_matches_expected_mru_to_lru_sequence() {
    let mut cache = LruCache::new(3);
    cache.put(1, "a"); // [1]
    cache.put(2, "b"); // [2,1]
    cache.put(3, "c"); // [3,2,1]
    assert_eq!(
        cache.debug_order(),
        vec![3, 2, 1],
        "debug_order returns keys from MRU(head) to LRU(tail)"
    );
    // Re-access 2: becomes MRU
    let _ = cache.get(&2); // [2,3,1]
    assert_eq!(
        cache.debug_order(),
        vec![2, 3, 1],
        "after get(2), 2 should be MRU"
    );
    // Insert 4, evicts LRU (1)
    cache.put(4, "d"); // [4,2,3]
    assert_eq!(
        cache.debug_order(),
        vec![4, 2, 3],
        "after put(4), 1 should be evicted"
    );
    assert_eq!(cache.get(&1), None, "1 should be evicted");
}

#[test]
fn capacity_one_behaves_correctly() {
    let mut c = LruCache::new(1);
    c.put(10, "x");
    assert_eq!(c.get(&10), Some("x"), "should retrieve the only entry");
    c.put(11, "y"); // evicts 10
    assert_eq!(c.get(&10), None, "previous entry should be evicted");
    assert_eq!(c.get(&11), Some("y"), "new entry should be present");
}

/// Many puts and gets over more keys than fit: the cache stays within its
/// capacity, and the key just put is always read back.
#[test]
fn puts_and_gets_remain_bounded() {
    let mut cache = LruCache::new(16);
    for t in 0..6usize {
        for i in 0..400usize {
            let k = (i * 3 + t) % 64;
            cache.put(k, (t, i));
            assert_eq!(cache.get(&k), Some((t, i)));
            assert!(cache.len() <= 16);
        }
    }
    assert_eq!(cache.len(), 16);
}

/// Getting the head, the middle and the tail each moves that key to the
/// front and keeps the others in order.
#[test]
fn get_moves_any_position_to_front() {
    let mut cache = LruCache::new(4);
    for k in 1..=4 {
        cache.put(k, k * 10);
    }
    assert_eq!(cache.debug_order(), vec![4, 3, 2, 1]);
    assert_eq!(cache.get(&4), Some(40));
    assert_eq!(cache.debug_order(), vec![4, 3, 2, 1]);
    assert_eq!(cache.get(&2), Some(20));
    assert_eq!(cache.debug_order(), vec![2, 4, 3, 1]);
    assert_eq!(cache.get(&1), Some(10));
    assert_eq!(cache.debug_order(), vec![1, 2, 4, 3]);
    assert_eq!(cache.get(&9), None);
    assert_eq!(cache.debug_order(), vec![1, 2, 4, 3]);
    cache.put(5, 50);
    assert_eq!(cache.debug_order(), vec![5, 1, 2, 4]);
    cache.put(4, 41);
    assert_eq!(cache.debug_order(), vec![4, 5, 1, 2]);
    assert_eq!(cache.get(&4), Some(41));
    assert_eq!(cache.len(), 4);
}

/// An empty cache has an empty order.
#[test]
fn empty_cache_has_no_order() {
    let cache: LruCache<i32, i32> = LruCache::new(3);
    assert_eq!(cache.debug_order(), Vec::<i32>::new());
    assert_eq!(cache.len(), 0);
}

/// Values that are cloned rather than copied come back equal, and the cache
/// keeps its own.
#[test]
fn owned_values_are_cloned_out() {
    let mut cache: LruCache<u64, String> = LruCache::new(2);
    cache.put(1, String::from("one"));
    cache.put(2, String::from("two"));
    assert_eq!(cache.get(&1), Some(String::from("one")));
    assert_eq!(cache.get(&1), Some(String::from("one")));
    cache.put(3, String::from("three"));
    assert_eq!(cache.get(&2), None);
    assert_eq!(cache.get(&3), Some(String::from("three")));
    assert_eq!(cache.debug_order(), vec![3, 1]);
}
