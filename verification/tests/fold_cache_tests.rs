use lru_cache::cells::{AtomicStorage, LRUKey, LRUValue, UsizeCell};
use lru_cache::fold_cache::LRUCache;

/// A new cache reports its capacity, holds nothing and is empty.
#[test]
fn test_cache_creation() {
    let cache: LRUCache<UsizeCell, UsizeCell, _> = LRUCache::new(10, 2, |k| k);
    assert_eq!(cache.capacity(), 10);
    assert_eq!(cache.len(), 0);
    assert!(cache.is_empty());
}

/// Values put into different folds are read back.
#[test]
fn test_put_and_get() {
    let mut cache: LRUCache<UsizeCell, UsizeCell, _> = LRUCache::new(10, 2, |k| k);

    cache.put(2, 200); // Fold 0
    cache.put(3, 300); // Fold 1

    assert_eq!(cache.get(2), Some(200));
    assert_eq!(cache.get(3), Some(300));
}

/// A second `put` of a key replaces its value and adds no entry.
#[test]
fn test_update_existing_key() {
    let mut cache: LRUCache<UsizeCell, UsizeCell, _> = LRUCache::new(3, 1, |k| k);
    cache.put(1, 100);
    assert_eq!(cache.get(1), Some(100));

    cache.put(1, 200);
    assert_eq!(cache.get(1), Some(200));
    assert_eq!(cache.len(), 1);
}

/// With equal hit counts the slot with the lowest index is evicted.
#[test]
fn test_eviction() {
    let mut cache: LRUCache<UsizeCell, UsizeCell, _> = LRUCache::new(2, 1, |k| k);

    cache.put(1, 100);
    cache.put(2, 200);

    assert_eq!(cache.get(1), Some(100)); // Key 1 hit count now 2
    assert_eq!(cache.get(2), Some(200)); // Key 2 hit count now 2

    cache.put(3, 300);
    assert_eq!(cache.get(3), Some(300));
    assert_eq!(cache.get(1), None);
    assert_eq!(cache.get(2), Some(200));
}

/// `clear` removes every entry.
#[test]
fn test_clear() {
    let mut cache: LRUCache<UsizeCell, UsizeCell, _> = LRUCache::new(3, 1, |k| k);
    cache.put(1, 100);
    cache.put(2, 200);
    cache.put(3, 300);

    assert_eq!(cache.len(), 3);
    cache.clear();
    assert_eq!(cache.len(), 0);
    assert!(cache.is_empty());
    assert_eq!(cache.get(1), None);
}

/// `remove` hands back the value and frees the slot.
#[test]
fn test_remove() {
    let mut cache: LRUCache<UsizeCell, UsizeCell, _> = LRUCache::new(3, 1, |k| k);
    cache.put(1, 100);
    cache.put(2, 200);
    cache.put(3, 300);

    assert_eq!(cache.remove(2), Some(200));
    assert_eq!(cache.len(), 2);
    assert_eq!(cache.get(2), None);

    assert_eq!(cache.remove(99), None);
}

/// `contains_key` tells presence without reading the value.
#[test]
fn test_contains_key() {
    let mut cache: LRUCache<UsizeCell, UsizeCell, _> = LRUCache::new(3, 1, |k| k);
    cache.put(1, 100);
    cache.put(2, 200);

    assert!(cache.contains_key(1));
    assert!(cache.contains_key(2));
    assert!(!cache.contains_key(99));
}

/// With one slot every new key evicts the one before.
#[test]
fn test_capacity_one() {
    let mut cache: LRUCache<UsizeCell, UsizeCell, _> = LRUCache::new(1, 1, |k| k);
    cache.put(1, 100);
    assert_eq!(cache.get(1), Some(100));

    cache.put(2, 200);
    assert_eq!(cache.get(1), None);
    assert_eq!(cache.get(2), Some(200));
}

/// The key `0` is never stored, found or removed.
#[test]
fn sentinel_key_is_rejected() {
    let mut cache: LRUCache<UsizeCell, UsizeCell, _> = LRUCache::new(4, 2, |k| k);
    cache.put(0, 77);
    assert_eq!(cache.len(), 0);
    assert_eq!(cache.get(0), None);
    assert!(!cache.contains_key(0));
    assert_eq!(cache.remove(0), None);
    cache.put(2, 20);
    cache.put(0, 99);
    assert_eq!(cache.len(), 1);
    assert_eq!(cache.get(2), Some(20));
    assert_eq!(cache.get(0), None);
}

/// However many keys are put, the cache never holds more than its capacity.
#[test]
fn len_never_exceeds_capacity() {
    let mut cache: LRUCache<UsizeCell, UsizeCell, _> = LRUCache::new(7, 3, |k| k * 31 + 5);
    for key in 1..200usize {
        cache.put(key, key * 2);
        assert!(cache.len() <= cache.capacity());
        assert_eq!(cache.get(key), Some(key * 2));
    }
    assert_eq!(cache.len(), 7);
}

/// The last fold takes the slots that the division leaves over: with five
/// slots in two folds, fold 0 has two slots and fold 1 has three.
#[test]
fn last_fold_takes_the_remainder() {
    let mut cache: LRUCache<UsizeCell, UsizeCell, _> = LRUCache::new(5, 2, |k| k);
    cache.put(1, 10);
    cache.put(3, 30);
    cache.put(5, 50);
    assert_eq!(cache.len(), 3);
    assert_eq!(cache.get(1), Some(10));
    assert_eq!(cache.get(3), Some(30));
    assert_eq!(cache.get(5), Some(50));
    cache.put(2, 20);
    cache.put(4, 40);
    assert_eq!(cache.len(), 5);
    // Fold 0 is full: key 6 evicts key 2, the first of two slots with one hit.
    cache.put(6, 60);
    assert_eq!(cache.len(), 5);
    assert!(!cache.contains_key(2));
    assert!(cache.contains_key(4));
    assert!(cache.contains_key(6));
    // Fold 1 is untouched.
    assert!(cache.contains_key(1));
    assert!(cache.contains_key(3));
    assert!(cache.contains_key(5));
}

/// Eviction takes the slot with the fewest hits, wherever it stands.
#[test]
fn eviction_takes_fewest_hits() {
    let mut cache: LRUCache<UsizeCell, UsizeCell, _> = LRUCache::new(3, 1, |_| 0);
    cache.put(1, 100);
    cache.put(2, 200);
    cache.put(3, 300);
    assert_eq!(cache.get(1), Some(100));
    assert_eq!(cache.get(3), Some(300));
    assert_eq!(cache.get(3), Some(300));
    // hits: key 1 -> 2, key 2 -> 1, key 3 -> 3
    cache.put(4, 400);
    assert!(!cache.contains_key(2));
    assert_eq!(cache.get(1), Some(100));
    assert_eq!(cache.get(3), Some(300));
    assert_eq!(cache.get(4), Some(400));
    // hits: key 1 -> 3, key 4 -> 2, key 3 -> 4
    cache.put(5, 500);
    assert!(!cache.contains_key(4));
    assert!(cache.contains_key(1));
    assert!(cache.contains_key(3));
    assert!(cache.contains_key(5));
}

/// `contains_key` counts as no hit, `put` of a cached key counts as one.
#[test]
fn hits_come_from_get_and_put_only() {
    let mut cache: LRUCache<UsizeCell, UsizeCell, _> = LRUCache::new(2, 1, |k| k);
    cache.put(1, 100);
    cache.put(2, 200);
    assert!(cache.contains_key(1));
    assert!(cache.contains_key(1));
    cache.put(2, 201); // key 2 now has two hits, key 1 still one
    cache.put(3, 300);
    assert!(!cache.contains_key(1));
    assert_eq!(cache.get(2), Some(201));
    assert_eq!(cache.get(3), Some(300));
}

/// A freed slot is taken before anything is evicted.
#[test]
fn empty_slot_is_filled_before_eviction() {
    let mut cache: LRUCache<UsizeCell, UsizeCell, _> = LRUCache::new(3, 1, |k| k);
    cache.put(1, 100);
    cache.put(2, 200);
    cache.put(3, 300);
    assert_eq!(cache.remove(2), Some(200));
    cache.put(4, 400);
    assert_eq!(cache.len(), 3);
    assert_eq!(cache.get(1), Some(100));
    assert_eq!(cache.get(3), Some(300));
    assert_eq!(cache.get(4), Some(400));
}

/// Clearing twice is the same as clearing once, and the cache works on.
#[test]
fn clear_is_idempotent() {
    let mut cache: LRUCache<UsizeCell, UsizeCell, _> = LRUCache::new(6, 3, |k| k);
    for key in 1..=6usize {
        cache.put(key, key + 1000);
    }
    assert_eq!(cache.len(), 6);
    cache.clear();
    assert_eq!(cache.len(), 0);
    for key in 1..=6usize {
        assert_eq!(cache.get(key), None);
        assert!(!cache.contains_key(key));
    }
    cache.clear();
    assert_eq!(cache.len(), 0);
    assert!(cache.is_empty());
    cache.put(4, 44);
    assert_eq!(cache.get(4), Some(44));
    assert_eq!(cache.len(), 1);
}

/// One fold per slot: two keys of one fold cannot both stay.
#[test]
fn as_many_folds_as_slots() {
    let mut cache: LRUCache<UsizeCell, UsizeCell, _> = LRUCache::new(3, 3, |k| k);
    cache.put(1, 11);
    cache.put(2, 22);
    cache.put(3, 33);
    assert_eq!(cache.len(), 3);
    cache.put(4, 44); // same fold as key 1
    assert_eq!(cache.len(), 3);
    assert_eq!(cache.get(1), None);
    assert_eq!(cache.get(4), Some(44));
    assert_eq!(cache.get(2), Some(22));
    assert_eq!(cache.get(3), Some(33));
}

/// The plain cell loads what was stored and wraps on `fetch_add`.
#[test]
fn usize_cell_behaves_as_a_word() {
    let mut cell = UsizeCell::default();
    assert_eq!(cell.load(), 0);
    cell.store(41);
    assert_eq!(cell.load(), 41);
    assert_eq!(cell.fetch_add(1), 41);
    assert_eq!(cell.load(), 42);
    let mut top = UsizeCell::new(usize::MAX);
    assert_eq!(top.fetch_add(2), usize::MAX);
    assert_eq!(top.load(), 1);
    let key = LRUKey { key: UsizeCell::new(5) };
    let value = LRUValue { value: UsizeCell::new(6) };
    assert_eq!(key.key.load(), 5);
    assert_eq!(value.value.load(), 6);
}

/// A hundred keys spread evenly over four folds fill every slot.
#[test]
fn writes_fill_every_slot() {
    let mut cache: LRUCache<UsizeCell, UsizeCell, _> = LRUCache::new(100, 4, |k| k);
    for thread_id in 0..10usize {
        for i in 0..10usize {
            let key = thread_id * 10 + i + 1;
            cache.put(key, key * 100);
        }
    }
    assert_eq!(cache.len(), 100);
    for key in 1..101usize {
        assert_eq!(cache.get(key), Some(key * 100));
    }
}

/// Removing every key that was put leaves the cache empty.
#[test]
fn removes_empty_the_cache() {
    let mut cache: LRUCache<UsizeCell, UsizeCell, _> = LRUCache::new(1000, 8, |k| k);
    for i in 0..1000usize {
        cache.put(i, i * 10);
    }
    assert_eq!(cache.len(), 999);
    for i in 0..1000usize {
        let removed = cache.remove(i);
        if i == 0 {
            assert_eq!(removed, None);
        } else {
            assert_eq!(removed, Some(i * 10));
        }
    }
    assert_eq!(cache.len(), 0);
}

/// A key that is written and read over and over stays cached with the value
/// written last.
#[test]
fn hot_key_stays_cached() {
    let mut cache: LRUCache<UsizeCell, UsizeCell, _> = LRUCache::new(100, 4, |k| k);
    cache.put(99, 0);
    for i in 0..50usize {
        for _ in 0..1000 {
            if i % 2 == 0 {
                cache.put(99, i);
            } else {
                assert_eq!(cache.get(99), Some(i - 1));
            }
        }
    }
    assert_eq!(cache.get(99), Some(48));
    assert_eq!(cache.len(), 1);
}

/// A long pseudo-random mix of all operations keeps the cache within its
/// capacity, and what it returns agrees with what was last put.
#[test]
fn random_workload_stays_bounded() {
    let mut cache: LRUCache<UsizeCell, UsizeCell, _> = LRUCache::new(50, 4, |k| k);
    let mut last_put = vec![None; 101];
    let mut state: u64 = 1;
    for _ in 0..40000 {
        state = state.wrapping_mul(6364136223846793005).wrapping_add(1);
        let r = state >> 33;
        let key = (r % 100) as usize + 1;
        let op = (r / 100) % 100;
        if op < 50 {
            if let Some(v) = cache.get(key) {
                assert_eq!(Some(v), last_put[key]);
            }
        } else if op < 90 {
            let value = (r % 1000) as usize;
            cache.put(key, value);
            last_put[key] = Some(value);
            assert_eq!(cache.get(key), Some(value));
        } else if op < 95 {
            let removed = cache.remove(key);
            if removed.is_some() {
                assert_eq!(removed, last_put[key]);
            }
            assert!(!cache.contains_key(key));
        } else if op == 99 {
            cache.clear();
            assert!(cache.is_empty());
        }
        assert!(cache.len() <= 50);
    }
}
