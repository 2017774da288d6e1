//! Tests of the configuration surface.

use sine_cache::config::AsyncCacheConfig;
use sine_cache::config::CacheConfig;
use sine_cache::config::CacheSyncConfig;
use sine_cache::config::EvictionAOFConfig;
use sine_cache::config::EvictionAsyncConfig;
use sine_cache::config::EvictionPolicyEnum;
use sine_cache::config::NoEvictionAOFConfig;
use sine_cache::config::NoEvictionAsyncConfig;

#[test]
fn sync_config_reports_capacity_and_policy() {
    let c = CacheSyncConfig::LRU(CacheConfig { max_size: 7 });
    assert_eq!(c.get_config().max_size, 7);
    assert_eq!(c.get_policy_type(), EvictionPolicyEnum::LRU);

    let c = CacheSyncConfig::FIFO(CacheConfig { max_size: 3 });
    assert_eq!(c.get_config().max_size, 3);
    assert_eq!(c.get_policy_type(), EvictionPolicyEnum::FIFO);

    let c = CacheSyncConfig::LFU(CacheConfig { max_size: 9 });
    assert_eq!(c.get_config().max_size, 9);
    assert_eq!(c.get_policy_type(), EvictionPolicyEnum::LFU);

    let c: CacheSyncConfig = CacheSyncConfig::NoEviction;
    assert_eq!(c.get_config().max_size, 0);
    assert_eq!(c.get_policy_type(), EvictionPolicyEnum::NoEviction);
}

#[test]
fn async_config_forces_read_persistence_under_eviction() {
    let c = AsyncCacheConfig::LFU(EvictionAsyncConfig { max_size: 10, aof_config: None });
    assert_eq!(c.persist_read_ops(), Some(true));

    let c = AsyncCacheConfig::NoEviction(NoEvictionAsyncConfig { aof_config: None });
    assert_eq!(c.persist_read_ops(), None);

    let c = AsyncCacheConfig::NoEviction(NoEvictionAsyncConfig {
        aof_config: Some(NoEvictionAOFConfig {
            folder: "./data".to_string(),
            cache_name: "c".to_string(),
            flush_time: None,
            persist_read_ops: false,
        }),
    });
    assert_eq!(c.persist_read_ops(), Some(false));
}

#[test]
fn async_config_hands_out_the_log_settings() {
    let c = AsyncCacheConfig::LRU(EvictionAsyncConfig {
        max_size: 4,
        aof_config: Some(EvictionAOFConfig {
            folder: "./data".to_string(),
            cache_name: "c".to_string(),
            flush_time: Some(250),
        }),
    });
    assert_eq!(
        c.get_aof_config(),
        Some(("./data".to_string(), "c".to_string(), Some(250)))
    );
    assert_eq!(c.get_policy_type(), EvictionPolicyEnum::LRU);

    let c = AsyncCacheConfig::FIFO(EvictionAsyncConfig { max_size: 4, aof_config: None });
    assert_eq!(c.get_aof_config(), None);
}

#[test]
fn async_config_lowers_to_the_sync_config() {
    let c = AsyncCacheConfig::LFU(EvictionAsyncConfig { max_size: 11, aof_config: None });
    let sync = c.get_sync_config();
    assert_eq!(sync.get_config().max_size, 11);
    assert_eq!(sync.get_policy_type(), EvictionPolicyEnum::LFU);

    let c = AsyncCacheConfig::NoEviction(NoEvictionAsyncConfig { aof_config: None });
    let sync = c.get_sync_config();
    assert_eq!(sync.get_config().max_size, 0);
    assert_eq!(sync.get_policy_type(), EvictionPolicyEnum::NoEviction);
}
