//! End-to-end scenarios over the synchronous cache: eviction and refresh
//! under each policy, and the unbounded behavior without eviction.

use sine_cache::cache::Cache;
use sine_cache::config::CacheConfig;
use sine_cache::config::CacheSyncConfig;

#[test]
fn scenario_lru_eviction_and_refresh() {
    let mut cache = Cache::new(CacheSyncConfig::LRU(CacheConfig { max_size: 2 }));

    cache.put("K1".to_string(), 1);
    cache.put("K2".to_string(), 2);
    cache.put("K1".to_string(), 10);
    cache.put("K3".to_string(), 3);

    assert_eq!(cache.get(&"K1".to_string()), Some(&10));
    assert!(cache.contains_key(&"K1".to_string()));
    assert_eq!(cache.get(&"K2".to_string()), None);
    assert_eq!(cache.get(&"K3".to_string()), Some(&3));
    cache.put("K4".to_string(), 4);
    assert_eq!(cache.get(&"K4".to_string()), Some(&4));
    assert_eq!(cache.get(&"K1".to_string()), None);
    assert!(!cache.contains_key(&"K1".to_string()));
}

#[test]
fn scenario_fifo_no_refresh_on_overwrite() {
    let mut cache = Cache::new(CacheSyncConfig::FIFO(CacheConfig { max_size: 2 }));

    cache.put("K1".to_string(), 1);
    cache.put("K2".to_string(), 2);
    cache.put("K1".to_string(), 10);
    cache.put("K3".to_string(), 3);

    assert_eq!(cache.get(&"K1".to_string()), None);
    assert_eq!(cache.get(&"K2".to_string()), Some(&2));
    assert_eq!(cache.get(&"K3".to_string()), Some(&3));
}

#[test]
fn scenario_lfu_promotion() {
    let mut cache = Cache::new(CacheSyncConfig::LFU(CacheConfig { max_size: 2 }));

    cache.put("K1".to_string(), 1);
    cache.put("K2".to_string(), 2);
    cache.put("K3".to_string(), 3);
    // All at count one; K1 is the oldest and leaves.
    assert_eq!(cache.get(&"K1".to_string()), None);

    cache.get(&"K2".to_string());
    cache.get(&"K2".to_string());
    cache.put("K4".to_string(), 4);
    // K3 holds the smaller count and leaves.
    assert!(!cache.contains_key(&"K3".to_string()));
    assert_eq!(cache.get(&"K2".to_string()), Some(&2));
    assert_eq!(cache.get(&"K4".to_string()), Some(&4));
}

#[test]
fn scenario_no_eviction_ignores_capacity() {
    let mut cache: Cache<u64, u64> = Cache::new(CacheSyncConfig::NoEviction);

    for i in 0..100u64 {
        cache.put(i, i * 2);
    }
    assert_eq!(cache.size(), 100);
    for i in 0..100u64 {
        assert_eq!(cache.get(&i), Some(&(i * 2)));
    }
}

#[test]
fn scenario_overwrite_never_evicts() {
    let mut cache = Cache::new(CacheSyncConfig::LRU(CacheConfig { max_size: 2 }));

    cache.put(1u32, "a".to_string());
    cache.put(2u32, "b".to_string());
    cache.put(1u32, "c".to_string());

    assert_eq!(cache.size(), 2);
    assert_eq!(cache.get(&1u32), Some(&"c".to_string()));
    assert_eq!(cache.get(&2u32), Some(&"b".to_string()));
}

#[test]
fn scenario_size_stays_within_capacity() {
    let mut cache = Cache::new(CacheSyncConfig::LFU(CacheConfig { max_size: 4 }));

    for i in 0..50u64 {
        cache.put(i % 11, i);
        assert!(cache.size() <= 4);
        let _ = cache.get(&(i % 7));
        assert!(cache.size() <= 4);
        if i % 5 == 0 {
            cache.remove(&(i % 3));
            assert!(cache.size() <= 4);
        }
    }
}

#[test]
fn scenario_remove_frees_room() {
    let mut cache = Cache::new(CacheSyncConfig::FIFO(CacheConfig { max_size: 2 }));

    cache.put(1u32, 1);
    cache.put(2u32, 2);
    cache.remove(&1u32);
    cache.put(3u32, 3);

    // Removing key 1 left room, so key 2 survives the insert of key 3.
    assert_eq!(cache.get(&2u32), Some(&2));
    assert_eq!(cache.get(&3u32), Some(&3));
    assert_eq!(cache.size(), 2);
}
