//! Configuration types selecting an eviction policy, a capacity, and the
//! optional persistence settings of a cache.

use vstd::prelude::*;
use crate::common::eq_is_logical_eq;
use crate::eviction_policies::CachePolicy;
use crate::eviction_policies::PolicyModel;
use crate::eviction_policies::common::EvictionPolicy;

verus! {

/// The supported eviction policies.
#[derive(PartialEq, Eq, Structural, Clone, Copy, Debug)]
pub enum EvictionPolicyEnum {
    NoEviction,
    LRU,
    LFU,
    FIFO,
}

/// The empty policy state of the given policy kind.
pub open spec fn empty_policy_model<K>(e: EvictionPolicyEnum) -> PolicyModel<K> {
    match e {
        EvictionPolicyEnum::NoEviction => PolicyModel::NoEviction,
        EvictionPolicyEnum::LRU => PolicyModel::Lru(Seq::<K>::empty()),
        EvictionPolicyEnum::LFU => PolicyModel::Lfu(Seq::<(K, u64)>::empty()),
        EvictionPolicyEnum::FIFO => PolicyModel::Fifo(Seq::<K>::empty()),
    }
}

impl EvictionPolicyEnum {
    /// Creates an empty policy value of the selected kind.
    pub fn create_policy<K: PartialEq>(self) -> (r: CachePolicy<K>)
        requires
            eq_is_logical_eq::<K>(),
        ensures
            r.inv(),
            r@ == empty_policy_model::<K>(self),
    {
        match self {
            Self::FIFO => CachePolicy::new_fifo(),
            Self::LFU => CachePolicy::new_lfu(),
            Self::LRU => CachePolicy::new_lru(),
            Self::NoEviction => CachePolicy::new_no_eviction(),
        }
    }
}

/// Capacity configuration for a cache.
pub struct CacheConfig {
    pub max_size: usize,
}

/// Configuration of a synchronous cache: the policy and, for the evicting
/// policies, the capacity.
pub enum CacheSyncConfig {
    NoEviction,
    LRU(CacheConfig),
    LFU(CacheConfig),
    FIFO(CacheConfig),
}

impl CacheSyncConfig {
    /// The capacity this configuration asks for; a cache that never evicts
    /// ignores it.
    pub open spec fn spec_max_size(&self) -> usize {
        match self {
            Self::NoEviction => 0,
            Self::LRU(v) => v.max_size,
            Self::LFU(v) => v.max_size,
            Self::FIFO(v) => v.max_size,
        }
    }

    /// The policy kind this configuration selects.
    pub open spec fn spec_policy_type(&self) -> EvictionPolicyEnum {
        match self {
            Self::NoEviction => EvictionPolicyEnum::NoEviction,
            Self::LRU(_) => EvictionPolicyEnum::LRU,
            Self::LFU(_) => EvictionPolicyEnum::LFU,
            Self::FIFO(_) => EvictionPolicyEnum::FIFO,
        }
    }

    /// Returns the capacity configuration to use in a cache; a configuration
    /// without eviction carries no capacity and reports zero.
    pub fn get_config(&self) -> (r: CacheConfig)
        ensures
            r.max_size == self.spec_max_size(),
    {
        match self {
            Self::NoEviction => CacheConfig { max_size: 0 },
            Self::FIFO(v) => CacheConfig { max_size: v.max_size },
            Self::LRU(v) => CacheConfig { max_size: v.max_size },
            Self::LFU(v) => CacheConfig { max_size: v.max_size },
        }
    }

    /// Returns the eviction policy kind this configuration selects.
    pub fn get_policy_type(self) -> (r: EvictionPolicyEnum)
        ensures
            r == self.spec_policy_type(),
    {
        match self {
            Self::NoEviction => EvictionPolicyEnum::NoEviction,
            Self::FIFO(_) => EvictionPolicyEnum::FIFO,
            Self::LRU(_) => EvictionPolicyEnum::LRU,
            Self::LFU(_) => EvictionPolicyEnum::LFU,
        }
    }
}

/// Persistence settings for a cache without eviction: where the log lives,
/// how often it is flushed, and whether reads are recorded.
pub struct NoEvictionAOFConfig {
    /// Folder in which the persistent file is created.
    pub folder: String,
    /// Unique cache name; the file carries this name.
    pub cache_name: String,
    /// Milliseconds between periodic flushes; when unset every record is
    /// flushed as it is written.
    pub flush_time: Option<u32>,
    /// Whether read operations are recorded in the log.
    pub persist_read_ops: bool,
}

/// Configuration of an asynchronous cache without eviction.
pub struct NoEvictionAsyncConfig {
    pub aof_config: Option<NoEvictionAOFConfig>,
}

/// Persistence settings for an evicting cache. Reads are always recorded,
/// since replaying them is what reconstructs the policy's recency and
/// frequency bookkeeping.
pub struct EvictionAOFConfig {
    /// Folder in which the persistent file is created.
    pub folder: String,
    /// Unique cache name; the file carries this name.
    pub cache_name: String,
    /// Milliseconds between periodic flushes; when unset every record is
    /// flushed as it is written.
    pub flush_time: Option<u32>,
}

/// Configuration of an asynchronous cache with an evicting policy.
pub struct EvictionAsyncConfig {
    /// Maximum number of keys stored before new keys push old ones out.
    pub max_size: usize,
    pub aof_config: Option<EvictionAOFConfig>,
}

/// Configuration of an asynchronous cache: the policy, the capacity where
/// one applies, and the optional persistence settings.
pub enum AsyncCacheConfig {
    NoEviction(NoEvictionAsyncConfig),
    LFU(EvictionAsyncConfig),
    LRU(EvictionAsyncConfig),
    FIFO(EvictionAsyncConfig),
}

impl AsyncCacheConfig {
    /// The capacity this configuration asks for.
    pub open spec fn spec_max_size(&self) -> usize {
        match self {
            Self::NoEviction(_) => 0,
            Self::LFU(v) => v.max_size,
            Self::LRU(v) => v.max_size,
            Self::FIFO(v) => v.max_size,
        }
    }

    /// The policy kind this configuration selects.
    pub open spec fn spec_policy_type(&self) -> EvictionPolicyEnum {
        match self {
            Self::NoEviction(_) => EvictionPolicyEnum::NoEviction,
            Self::LFU(_) => EvictionPolicyEnum::LFU,
            Self::LRU(_) => EvictionPolicyEnum::LRU,
            Self::FIFO(_) => EvictionPolicyEnum::FIFO,
        }
    }

    /// Whether read operations are recorded in the log: chosen by the
    /// configuration when nothing is evicted, forced on for the evicting
    /// policies, and absent when no log is configured for a cache without
    /// eviction.
    pub open spec fn spec_persist_read_ops(&self) -> Option<bool> {
        match self {
            Self::NoEviction(v) => match v.aof_config {
                Some(c) => Some(c.persist_read_ops),
                None => None,
            },
            Self::LFU(_) => Some(true),
            Self::LRU(_) => Some(true),
            Self::FIFO(_) => Some(true),
        }
    }

    /// The persistence settings, as folder, cache name and flush period.
    pub open spec fn spec_aof_config(&self) -> Option<(String, String, Option<u32>)> {
        match self {
            Self::NoEviction(v) => match v.aof_config {
                Some(c) => Some((c.folder, c.cache_name, c.flush_time)),
                None => None,
            },
            Self::LFU(v) => match v.aof_config {
                Some(c) => Some((c.folder, c.cache_name, c.flush_time)),
                None => None,
            },
            Self::LRU(v) => match v.aof_config {
                Some(c) => Some((c.folder, c.cache_name, c.flush_time)),
                None => None,
            },
            Self::FIFO(v) => match v.aof_config {
                Some(c) => Some((c.folder, c.cache_name, c.flush_time)),
                None => None,
            },
        }
    }

    /// Returns the configuration of the synchronous cache under the facade.
    pub fn get_sync_config(self) -> (r: CacheSyncConfig)
        ensures
            r.spec_max_size() == self.spec_max_size(),
            r.spec_policy_type() == self.spec_policy_type(),
    {
        match self {
            Self::NoEviction(_) => CacheSyncConfig::NoEviction,
            Self::FIFO(v) => CacheSyncConfig::FIFO(CacheConfig { max_size: v.max_size }),
            Self::LFU(v) => CacheSyncConfig::LFU(CacheConfig { max_size: v.max_size }),
            Self::LRU(v) => CacheSyncConfig::LRU(CacheConfig { max_size: v.max_size }),
        }
    }

    /// Returns whether read operations are recorded in the log; `None` when
    /// a cache without eviction has no log configured.
    pub fn persist_read_ops(&self) -> (r: Option<bool>)
        ensures
            r == self.spec_persist_read_ops(),
    {
        match self {
            Self::NoEviction(v) => match &v.aof_config {
                Some(c) => Some(c.persist_read_ops),
                None => None,
            },
            _ => Some(true),
        }
    }

    /// Returns the persistence settings as a `(folder, cache_name,
    /// flush_time)` tuple, or `None` when no log is configured.
    pub fn get_aof_config(&self) -> (r: Option<(String, String, Option<u32>)>)
        ensures
            r == self.spec_aof_config(),
    {
        match self {
            Self::NoEviction(v) => match &v.aof_config {
                Some(c) => Some((c.folder.clone(), c.cache_name.clone(), c.flush_time)),
                None => None,
            },
            Self::LFU(v) => match &v.aof_config {
                Some(c) => Some((c.folder.clone(), c.cache_name.clone(), c.flush_time)),
                None => None,
            },
            Self::LRU(v) => match &v.aof_config {
                Some(c) => Some((c.folder.clone(), c.cache_name.clone(), c.flush_time)),
                None => None,
            },
            Self::FIFO(v) => match &v.aof_config {
                Some(c) => Some((c.folder.clone(), c.cache_name.clone(), c.flush_time)),
                None => None,
            },
        }
    }

    /// Returns the eviction policy kind this configuration selects.
    pub fn get_policy_type(self) -> (r: EvictionPolicyEnum)
        ensures
            r == self.spec_policy_type(),
    {
        match self {
            Self::NoEviction(_) => EvictionPolicyEnum::NoEviction,
            Self::FIFO(_) => EvictionPolicyEnum::FIFO,
            Self::LRU(_) => EvictionPolicyEnum::LRU,
            Self::LFU(_) => EvictionPolicyEnum::LFU,
        }
    }
}

} // verus!
