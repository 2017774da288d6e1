//! Tests of the cache under the LRU policy.

use sine_cache::cache::Cache;
use sine_cache::config::CacheConfig;
use sine_cache::config::CacheSyncConfig;

#[test]
fn lru_test_basic_get_put() {
    let mut cache = Cache::new(CacheSyncConfig::LRU(CacheConfig { max_size: 2 }));

    cache.put("K1".to_string(), 1);
    cache.put("K2".to_string(), 2);

    assert_eq!(cache.get(&"K1".to_string()), Some(&1));
    assert_eq!(cache.get(&"K2".to_string()), Some(&2));
}

#[test]
fn lru_test_lru_eviction() {
    let mut cache = Cache::new(CacheSyncConfig::LRU(CacheConfig { max_size: 2 }));

    cache.put("K1".to_string(), 1);
    cache.put("K2".to_string(), 2);
    cache.put("K3".to_string(), 3);

    assert_eq!(cache.get(&"K1".to_string()), None);
    assert_eq!(cache.get(&"K2".to_string()), Some(&2));
    assert_eq!(cache.get(&"K3".to_string()), Some(&3));
}

#[test]
fn lru_test_get_mut_and_remove() {
    let mut cache = Cache::new(CacheSyncConfig::LRU(CacheConfig { max_size: 2 }));

    cache.put("K1".to_string(), 1);
    cache.put("K2".to_string(), 2);

    if let Some(value) = cache.get_mut(&"K1".to_string()) {
        *value = 10;
    }

    cache.remove(&"K2".to_string());

    assert_eq!(cache.get(&"K1".to_string()), Some(&10));
    assert_eq!(cache.get(&"K2".to_string()), None);
}

#[test]
fn lru_test_contains_key() {
    let mut cache = Cache::new(CacheSyncConfig::LRU(CacheConfig { max_size: 2 }));

    cache.put("K1".to_string(), 1);
    cache.put("K2".to_string(), 2);

    assert!(cache.contains_key(&"K1".to_string()));
    assert!(!cache.contains_key(&"K3".to_string()));
}

#[test]
fn lru_test_size() {
    let mut cache = Cache::new(CacheSyncConfig::LRU(CacheConfig { max_size: 2 }));

    cache.put("K1".to_string(), 1);
    cache.put("K2".to_string(), 2);

    assert_eq!(cache.size(), 2);
}
