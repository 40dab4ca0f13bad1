//! Tests of the LRU partitions, the partitioned cache and the caching
//! object-store front.

use analytic_core::lrucache::LruPartition;
use analytic_core::memcache::{MemCache, MemCacheStore, MemStore, cache_key};

#[test]
fn partition_holds_capacity_bound() {
    let mut p = LruPartition::new(10);
    p.insert(b"a".to_vec(), vec![1; 4]);
    p.insert(b"b".to_vec(), vec![2; 4]);
    assert_eq!(p.total_bytes(), 8);
    p.insert(b"c".to_vec(), vec![3; 4]);
    // The least-recently-used entry left to make room.
    assert!(p.total_bytes() <= 10);
    assert_eq!(p.total_bytes(), 8);
    assert!(p.get(b"a").is_none());
    assert!(p.get(b"b").is_some());
    assert!(p.get(b"c").is_some());
}

#[test]
fn partition_get_refreshes_recency() {
    let mut p = LruPartition::new(10);
    p.insert(b"a".to_vec(), vec![1; 4]);
    p.insert(b"b".to_vec(), vec![2; 4]);
    // Touch `a`, making `b` the least recently used.
    assert_eq!(p.get(b"a"), Some(vec![1; 4]));
    p.insert(b"c".to_vec(), vec![3; 4]);
    assert!(p.get(b"b").is_none());
    assert!(p.get(b"a").is_some());
    assert!(p.get(b"c").is_some());
}

#[test]
fn partition_replaces_existing_key() {
    let mut p = LruPartition::new(10);
    p.insert(b"a".to_vec(), vec![1; 4]);
    p.insert(b"a".to_vec(), vec![9; 6]);
    assert_eq!(p.total_bytes(), 6);
    assert_eq!(p.get(b"a"), Some(vec![9; 6]));
}

#[test]
fn partition_rejects_oversized_value() {
    let mut p = LruPartition::new(4);
    p.insert(b"a".to_vec(), vec![1; 2]);
    // A value above the whole capacity is rejected silently.
    p.insert(b"big".to_vec(), vec![7; 5]);
    assert!(p.get(b"big").is_none());
    assert_eq!(p.get(b"a"), Some(vec![1; 2]));
}

#[test]
fn cache_spreads_over_partitions() {
    let mut cache = MemCache::new(2, 100);
    assert_eq!(cache.cap_per_partition, 25);
    cache.insert(b"one".to_vec(), vec![1; 5]);
    cache.insert(b"two".to_vec(), vec![2; 5]);
    assert_eq!(cache.get(b"one"), Some(vec![1; 5]));
    assert_eq!(cache.get(b"two"), Some(vec![2; 5]));
    assert_eq!(cache.get(b"three"), None);
}

#[test]
fn test_mem_cache_evict() {
    // A single partition of 13 bytes behind an in-memory object store.
    let mut store = MemStore::new();
    store.put(b"1.sst", vec![1; 1024]);
    let mut store = MemCacheStore::new(0, 13, store);

    // Fetch bytes of three 5-byte ranges; the third insertion evicts the
    // least recently used range.
    assert_eq!(store.get_range(b"1.sst", 0, 5), Some(vec![1; 5]));
    assert!(store.cache.get(&cache_key(b"1.sst", 0, 5)).is_some());

    assert_eq!(store.get_range(b"1.sst", 5, 10), Some(vec![1; 5]));
    assert!(store.cache.get(&cache_key(b"1.sst", 0, 5)).is_some());
    assert!(store.cache.get(&cache_key(b"1.sst", 5, 10)).is_some());

    assert_eq!(store.get_range(b"1.sst", 10, 15), Some(vec![1; 5]));
    assert!(store.cache.get(&cache_key(b"1.sst", 0, 5)).is_none());
    assert!(store.cache.get(&cache_key(b"1.sst", 5, 10)).is_some());
    assert!(store.cache.get(&cache_key(b"1.sst", 10, 15)).is_some());
}

#[test]
fn test_mem_cache_partition() {
    // Four partitions sharing 100 bytes.
    let mut store = MemStore::new();
    store.put(b"partition.sst", vec![1; 1024]);
    let mut store = MemCacheStore::new(2, 100, store);

    assert_eq!(store.cache.partitions.len(), 4);
    assert_eq!(store.get_range(b"partition.sst", 0, 5), Some(vec![1; 5]));
    assert_eq!(store.get_range(b"partition.sst", 100, 105), Some(vec![1; 5]));

    assert!(store.cache.get(&cache_key(b"partition.sst", 0, 5)).is_some());
    assert!(store.cache.get(&cache_key(b"partition.sst", 100, 105)).is_some());
}

#[test]
fn second_identical_range_read_hits_cache() {
    let mut store = MemStore::new();
    store.put(b"data.sst", vec![7; 64]);
    let mut store = MemCacheStore::new(0, 1024, store);

    assert_eq!(store.store.fetch_count, 0);
    let first = store.get_range(b"data.sst", 0, 5);
    assert_eq!(first, Some(vec![7; 5]));
    assert_eq!(store.store.fetch_count, 1);

    // The second identical read is served by the cache: the backing store
    // sees no further fetch.
    let second = store.get_range(b"data.sst", 0, 5);
    assert_eq!(second, Some(vec![7; 5]));
    assert_eq!(store.store.fetch_count, 1);
}

#[test]
fn missing_object_and_bad_range_fail() {
    let mut store = MemStore::new();
    store.put(b"x", vec![1, 2, 3]);
    let mut store = MemCacheStore::new(0, 16, store);
    assert_eq!(store.get_range(b"y", 0, 1), None);
    assert_eq!(store.get_range(b"x", 0, 4), None);
    assert_eq!(store.get_range(b"x", 1, 3), Some(vec![2, 3]));
}
