use linera_kv::value_cache::{CacheKey, ValueCache, DEFAULT_VALUE_CACHE_SIZE};

fn k(n: u64) -> CacheKey {
    (n, n.wrapping_mul(31), 7, n ^ 0xff)
}

fn bytes(n: u8) -> Vec<u8> {
    vec![n; 3]
}

#[test]
fn lru_scenario_capacity_two() {
    let mut cache = ValueCache::new(2);
    assert!(cache.insert_owned(&k(1), bytes(1)));
    assert!(cache.insert_owned(&k(2), bytes(2)));
    assert_eq!(cache.get(&k(1)), Some(bytes(1)));
    assert!(cache.insert_owned(&k(3), bytes(3)));
    assert!(cache.contains(&k(1)));
    assert!(!cache.contains(&k(2)));
    assert!(cache.contains(&k(3)));
}

#[test]
fn keys_differing_in_one_word_are_distinct() {
    let mut cache = ValueCache::new(2);
    assert!(cache.insert_owned(&(1, 2, 3, 4), bytes(1)));
    assert!(cache.insert_owned(&(1, 2, 3, 5), bytes(2)));
    assert_eq!(cache.get(&(1, 2, 3, 4)), Some(bytes(1)));
    assert_eq!(cache.get(&(1, 2, 3, 5)), Some(bytes(2)));
}

#[test]
fn inserting_past_capacity_evicts_least_recent() {
    let mut cache = ValueCache::new(3);
    for n in 1..=3u64 {
        assert!(cache.insert_owned(&k(n), bytes(n as u8)));
    }
    assert!(cache.insert_owned(&k(4), bytes(4)));
    assert!(!cache.contains(&k(1)));
    assert!(cache.contains(&k(2)));
    assert!(cache.contains(&k(3)));
    assert!(cache.contains(&k(4)));
    assert_eq!(cache.keys(), vec![k(4), k(3), k(2)]);
}

#[test]
fn get_protects_entry_from_eviction() {
    let mut cache = ValueCache::new(3);
    for n in 1..=3u64 {
        cache.insert_owned(&k(n), bytes(n as u8));
    }
    assert_eq!(cache.get(&k(1)), Some(bytes(1)));
    cache.insert_owned(&k(4), bytes(4));
    assert!(cache.contains(&k(1)));
    assert!(!cache.contains(&k(2)));
}

#[test]
fn reinsert_keeps_value_and_size() {
    let mut cache = ValueCache::new(3);
    cache.insert_owned(&k(1), bytes(1));
    cache.insert_owned(&k(2), bytes(2));
    assert!(!cache.insert(&k(1), &bytes(9)));
    assert!(!cache.insert_owned(&k(1), bytes(8)));
    assert_eq!(cache.keys(), vec![k(1), k(2)]);
    assert_eq!(cache.get(&k(1)), Some(bytes(1)));
}

#[test]
fn insert_copies_new_value() {
    let mut cache = ValueCache::new(2);
    let value = bytes(5);
    assert!(cache.insert(&k(5), &value));
    assert_eq!(cache.get(&k(5)), Some(value));
}

#[test]
fn try_get_many_partitions_keys() {
    let mut cache = ValueCache::new(4);
    cache.insert_owned(&k(1), bytes(1));
    cache.insert_owned(&k(2), bytes(2));
    cache.insert_owned(&k(3), bytes(3));
    let (found, not_found) = cache.try_get_many(vec![k(3), k(7), k(1), k(8)]);
    assert_eq!(found, vec![(k(3), bytes(3)), (k(1), bytes(1))]);
    assert_eq!(not_found, vec![k(7), k(8)]);
    assert_eq!(cache.keys(), vec![k(1), k(3), k(2)]);
}

#[test]
fn try_get_many_on_empty_request() {
    let mut cache = ValueCache::new(2);
    cache.insert_owned(&k(1), bytes(1));
    let (found, not_found) = cache.try_get_many(vec![]);
    assert!(found.is_empty());
    assert!(not_found.is_empty());
}

#[test]
fn remove_returns_value_and_counts() {
    let mut cache = ValueCache::new(2);
    cache.insert_owned(&k(1), bytes(1));
    assert_eq!(cache.remove(&k(1)), Some(bytes(1)));
    assert_eq!(cache.remove(&k(1)), None);
    assert!(!cache.contains(&k(1)));
    assert_eq!(cache.hit_count(), 1);
    assert_eq!(cache.miss_count(), 1);
}

#[test]
fn get_counts_hits_and_misses() {
    let mut cache = ValueCache::new(2);
    cache.insert_owned(&k(1), bytes(1));
    assert_eq!(cache.get(&k(2)), None);
    assert_eq!(cache.get(&k(1)), Some(bytes(1)));
    assert_eq!(cache.get(&k(1)), Some(bytes(1)));
    assert_eq!(cache.hit_count(), 2);
    assert_eq!(cache.miss_count(), 1);
}

#[test]
fn contains_does_not_promote() {
    let mut cache = ValueCache::new(2);
    cache.insert_owned(&k(1), bytes(1));
    cache.insert_owned(&k(2), bytes(2));
    assert!(cache.contains(&k(1)));
    cache.insert_owned(&k(3), bytes(3));
    assert!(!cache.contains(&k(1)));
}

#[test]
fn insert_all_skips_present_keys() {
    let mut cache = ValueCache::new(3);
    cache.insert_owned(&k(1), bytes(1));
    cache.insert_owned(&k(2), bytes(2));
    cache.insert_all(&vec![(k(1), bytes(9)), (k(3), bytes(3))]);
    assert_eq!(cache.keys(), vec![k(3), k(2), k(1)]);
    assert_eq!(cache.get(&k(1)), Some(bytes(1)));
}

#[test]
fn subtract_keeps_uncached_items_in_order() {
    let mut cache = ValueCache::new(3);
    cache.insert_owned(&k(2), bytes(2));
    cache.insert_owned(&k(4), bytes(4));
    let items: Vec<(u64, &str)> = vec![(1, "a"), (2, "b"), (3, "c"), (4, "d")];
    let rest = cache.subtract_cached_items_from(items, |item: &(u64, &str)| k(item.0));
    assert_eq!(rest, vec![(1, "a"), (3, "c")]);
}

#[test]
fn default_cache_holds_default_size() {
    let mut cache = ValueCache::default();
    for n in 0..(DEFAULT_VALUE_CACHE_SIZE as u64 + 1) {
        cache.insert_owned(&k(n), vec![]);
    }
    assert!(!cache.contains(&k(0)));
    assert!(cache.contains(&k(1)));
    assert_eq!(cache.keys().len(), DEFAULT_VALUE_CACHE_SIZE);
}
