use lru_collections::lrucache::lrucache::{CacheEntry, CacheError, LruCache};
use std::rc::Rc;

#[test]
fn test_put_get() {
    let mut lru_cache = LruCache::<String, u8>::new(3).unwrap();
    lru_cache.put("one".to_string(), 1);
    lru_cache.put("two".to_string(), 2);
    lru_cache.put("three".to_string(), 3);
    assert_eq!(lru_cache.size(), 3);

    //get the value for one
    let one = lru_cache.get(&"one".to_string());
    assert_eq!(one, Some(&1));

    //if we add another key then the 2 should be evicted
    lru_cache.put("four".to_string(), 4);
    assert_eq!(lru_cache.size(), 3);
    assert_eq!(lru_cache.contains(&"two".to_string()), false);
}

#[test]
fn promoted_key_outlives_older_one() {
    let mut cache = LruCache::<String, u8>::new(3).unwrap();
    cache.put("one".to_string(), 1);
    cache.put("two".to_string(), 2);
    cache.put("three".to_string(), 3);
    assert_eq!(cache.get(&"one".to_string()), Some(&1));
    cache.put("four".to_string(), 4);
    assert_eq!(cache.contains(&"two".to_string()), false);
    assert_eq!(cache.contains(&"one".to_string()), true);
    assert_eq!(cache.contains(&"three".to_string()), true);
    assert_eq!(cache.contains(&"four".to_string()), true);
}

#[test]
fn capacity_one_keeps_only_the_last_key() {
    let mut cache = LruCache::<String, u8>::new(1).unwrap();
    cache.put("a".to_string(), 1);
    cache.put("b".to_string(), 2);
    assert_eq!(cache.contains(&"a".to_string()), false);
    assert_eq!(cache.contains(&"b".to_string()), true);
    assert_eq!(cache.get(&"b".to_string()), Some(&2));
    assert_eq!(cache.get(&"a".to_string()), None);
}

#[test]
fn get_on_empty_cache_is_a_miss() {
    let mut cache = LruCache::<String, u8>::new(4).unwrap();
    assert_eq!(cache.get(&"nothing".to_string()), None);
    assert_eq!(cache.size(), 4);
    assert_eq!(cache.contains(&"nothing".to_string()), false);
    assert_eq!(cache.remove(&"nothing".to_string()), None);
    assert_eq!(cache.size(), 4);
}

#[test]
fn zero_capacity_is_refused() {
    assert_eq!(LruCache::<u32, u32>::new(0).err(), Some(CacheError::ZeroCapacity));
    assert!(LruCache::<u32, u32>::new(1).is_ok());
}

#[test]
fn never_more_entries_than_capacity() {
    let mut cache = LruCache::<u32, u32>::new(3).unwrap();
    for k in 0..10u32 {
        cache.put(k, k * 2);
        let held = (0..10u32).filter(|x| cache.contains(x)).count();
        assert_eq!(held, std::cmp::min(k as usize + 1, 3));
    }
    for k in 0..7u32 {
        assert_eq!(cache.contains(&k), false);
    }
    assert_eq!(cache.get(&7), Some(&14));
    assert_eq!(cache.get(&8), Some(&16));
    assert_eq!(cache.get(&9), Some(&18));
}

#[test]
fn entries_leave_in_order_of_insertion() {
    let mut cache = LruCache::<u32, u32>::new(2).unwrap();
    cache.put(1, 10);
    cache.put(2, 20);
    cache.put(3, 30);
    assert_eq!(cache.contains(&1), false);
    assert_eq!(cache.contains(&2), true);
    cache.put(4, 40);
    assert_eq!(cache.contains(&2), false);
    assert_eq!(cache.contains(&3), true);
    assert_eq!(cache.contains(&4), true);
}

#[test]
fn get_makes_the_key_the_last_to_leave() {
    let mut cache = LruCache::<u32, u32>::new(3).unwrap();
    cache.put(1, 10);
    cache.put(2, 20);
    cache.put(3, 30);
    assert_eq!(cache.get(&1), Some(&10));
    cache.put(4, 40);
    cache.put(5, 50);
    assert_eq!(cache.contains(&2), false);
    assert_eq!(cache.contains(&3), false);
    assert_eq!(cache.contains(&1), true);
    cache.put(6, 60);
    assert_eq!(cache.contains(&1), false);
}

#[test]
fn contains_does_not_count_as_a_use() {
    let mut cache = LruCache::<u32, u32>::new(3).unwrap();
    cache.put(1, 10);
    cache.put(2, 20);
    cache.put(3, 30);
    for _ in 0..5 {
        assert_eq!(cache.contains(&1), true);
    }
    cache.put(4, 40);
    assert_eq!(cache.contains(&1), false);
    assert_eq!(cache.contains(&2), true);
}

#[test]
fn remove_then_put_is_a_fresh_insert() {
    let mut cache = LruCache::<u32, u32>::new(3).unwrap();
    cache.put(1, 10);
    cache.put(2, 20);
    cache.put(3, 30);
    assert_eq!(cache.remove(&2), Some(20));
    assert_eq!(cache.contains(&2), false);
    assert_eq!(cache.remove(&2), None);
    assert_eq!(cache.get(&2), None);
    cache.put(2, 21);
    assert_eq!(cache.contains(&1), true);
    assert_eq!(cache.contains(&3), true);
    cache.put(4, 40);
    assert_eq!(cache.contains(&1), false);
    assert_eq!(cache.contains(&3), true);
    cache.put(5, 50);
    assert_eq!(cache.contains(&3), false);
    assert_eq!(cache.get(&2), Some(&21));
}

#[test]
fn remove_keeps_the_order_of_the_others() {
    let mut cache = LruCache::<u32, u32>::new(3).unwrap();
    cache.put(1, 10);
    cache.put(2, 20);
    cache.put(3, 30);
    assert_eq!(cache.remove(&3), Some(30));
    cache.put(4, 40);
    cache.put(5, 50);
    assert_eq!(cache.contains(&1), false);
    assert_eq!(cache.contains(&2), true);
    cache.put(6, 60);
    assert_eq!(cache.contains(&2), false);
    assert_eq!(cache.contains(&4), true);
}

#[test]
fn put_on_present_key_updates_and_promotes() {
    let mut cache = LruCache::<u32, u32>::new(2).unwrap();
    cache.put(1, 10);
    cache.put(2, 20);
    cache.put(1, 11);
    assert_eq!(cache.size(), 2);
    assert_eq!(cache.contains(&2), true);
    cache.put(3, 30);
    assert_eq!(cache.contains(&2), false);
    assert_eq!(cache.get(&1), Some(&11));
    assert_eq!(cache.get(&3), Some(&30));
}

#[test]
fn entry_holds_what_it_was_made_with() {
    let entry = CacheEntry::new(Rc::new(7u32), "seven".to_string());
    assert_eq!(*entry.key, 7);
    assert_eq!(entry.val, "seven");
}

#[test]
fn a_new_cache_can_take_insertions() {
    let mut cache = LruCache::<u32, u32>::new(2).unwrap();
    assert!(cache.can_insert());
    cache.put(1, 10);
    assert!(cache.can_insert());
}
