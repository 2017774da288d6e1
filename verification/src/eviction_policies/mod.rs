//! Eviction policies: the contract they satisfy, the reference
//! implementations, and the policy value a cache holds.

use vstd::prelude::*;

pub mod common;
pub mod fifo;
pub mod lfu;
pub mod lru;
pub mod noevicton;

use common::EvictionPolicy;
use fifo::FIFO;
use fifo::fifo_on_set;
use lfu::LFU;
use lfu::lfu_access;
use lfu::lfu_key_set;
use lfu::lfu_on_set;
use lfu::lfu_remove;
use lfu::lfu_victim_index;
use lru::LRU;
use lru::lru_touch;
use noevicton::NoEviction;
use crate::common::eq_is_logical_eq;

verus! {

/// The abstract state of a cache policy: for FIFO the live insertion order,
/// for LRU the recency order, for LFU the recency order of key/count pairs,
/// and nothing for the policy that never evicts. Orders run from the next
/// eviction candidate towards the most recent entry.
pub enum PolicyModel<K> {
    Fifo(Seq<K>),
    Lru(Seq<K>),
    Lfu(Seq<(K, u64)>),
    NoEviction,
}

/// Whether the policy state tracks keys and yields victims.
pub open spec fn policy_constrains<K>(m: PolicyModel<K>) -> bool {
    !(m is NoEviction)
}

/// The set of keys a policy state tracks.
pub open spec fn policy_membership<K>(m: PolicyModel<K>) -> Set<K> {
    match m {
        PolicyModel::Fifo(s) => s.to_set(),
        PolicyModel::Lru(s) => s.to_set(),
        PolicyModel::Lfu(s) => lfu_key_set(s),
        PolicyModel::NoEviction => Set::empty(),
    }
}

/// The policy state after a read of `k`.
pub open spec fn policy_on_get<K>(m: PolicyModel<K>, k: K) -> PolicyModel<K> {
    match m {
        PolicyModel::Fifo(s) => PolicyModel::Fifo(s),
        PolicyModel::Lru(s) => PolicyModel::Lru(
            if s.contains(k) {
                lru_touch(s, k)
            } else {
                s
            },
        ),
        PolicyModel::Lfu(s) => PolicyModel::Lfu(lfu_access(s, k)),
        PolicyModel::NoEviction => PolicyModel::NoEviction,
    }
}

/// The policy state after a write of `k`.
pub open spec fn policy_on_set<K>(m: PolicyModel<K>, k: K) -> PolicyModel<K> {
    match m {
        PolicyModel::Fifo(s) => PolicyModel::Fifo(fifo_on_set(s, k)),
        PolicyModel::Lru(s) => PolicyModel::Lru(lru_touch(s, k)),
        PolicyModel::Lfu(s) => PolicyModel::Lfu(lfu_on_set(s, k)),
        PolicyModel::NoEviction => PolicyModel::NoEviction,
    }
}

/// The victim a policy state dictates, if it tracks any key.
pub open spec fn policy_victim<K>(m: PolicyModel<K>) -> Option<K> {
    match m {
        PolicyModel::Fifo(s) => if s.len() == 0 {
            None
        } else {
            Some(s[0])
        },
        PolicyModel::Lru(s) => if s.len() == 0 {
            None
        } else {
            Some(s[0])
        },
        PolicyModel::Lfu(s) => if s.len() == 0 {
            None
        } else {
            Some(s[lfu_victim_index(s)].0)
        },
        PolicyModel::NoEviction => None,
    }
}

/// The policy state after its victim left.
pub open spec fn policy_after_evict<K>(m: PolicyModel<K>) -> PolicyModel<K> {
    match m {
        PolicyModel::Fifo(s) => PolicyModel::Fifo(
            if s.len() == 0 {
                s
            } else {
                s.drop_first()
            },
        ),
        PolicyModel::Lru(s) => PolicyModel::Lru(
            if s.len() == 0 {
                s
            } else {
                s.drop_first()
            },
        ),
        PolicyModel::Lfu(s) => PolicyModel::Lfu(
            if s.len() == 0 {
                s
            } else {
                s.remove(lfu_victim_index(s))
            },
        ),
        PolicyModel::NoEviction => PolicyModel::NoEviction,
    }
}

/// The policy state after `k` is dropped.
pub open spec fn policy_remove<K>(m: PolicyModel<K>, k: K) -> PolicyModel<K> {
    match m {
        PolicyModel::Fifo(s) => PolicyModel::Fifo(s.remove_value(k)),
        PolicyModel::Lru(s) => PolicyModel::Lru(s.remove_value(k)),
        PolicyModel::Lfu(s) => PolicyModel::Lfu(lfu_remove(s, k)),
        PolicyModel::NoEviction => PolicyModel::NoEviction,
    }
}

/// The policy state after `n` evictions in a row.
pub open spec fn policy_after_evictions<K>(m: PolicyModel<K>, n: nat) -> PolicyModel<K>
    decreases n,
{
    if n == 0 {
        m
    } else {
        policy_after_evictions(policy_after_evict(m), (n - 1) as nat)
    }
}

/// FIFO evicts in insertion order. A FIFO state is the sequence of its live
/// keys in insertion order: a read never changes it, setting an already
/// tracked key keeps its place, and removing a key deletes it, so the
/// sequence holds exactly the keys never removed, ordered by first
/// insertion. This law says eviction walks that sequence from the front:
/// the victim after `n` evictions is the key at position `n`.
pub proof fn lemma_fifo_eviction_follows_insertion<K>(s: Seq<K>, n: int)
    requires
        0 <= n < s.len(),
    ensures
        policy_victim(policy_after_evictions(PolicyModel::Fifo(s), n as nat)) == Some(s[n]),
    decreases n,
{
    if n > 0 {
        lemma_fifo_eviction_follows_insertion(s.drop_first(), n - 1);
        assert(policy_after_evict(PolicyModel::Fifo(s)) == PolicyModel::Fifo(s.drop_first()));
        assert(s.drop_first()[n - 1] == s[n]);
    }
}

/// The policy value a cache owns: one of the reference policies, chosen at
/// construction time.
pub enum CachePolicy<K> {
    FIFO(FIFO<K>),
    LRU(LRU<K>),
    LFU(LFU<K>),
    NoEviction(NoEviction<K>),
}

impl<K> View for CachePolicy<K> {
    type V = PolicyModel<K>;

    open spec fn view(&self) -> PolicyModel<K> {
        match self {
            CachePolicy::FIFO(p) => PolicyModel::Fifo(p@),
            CachePolicy::LRU(p) => PolicyModel::Lru(p@),
            CachePolicy::LFU(p) => PolicyModel::Lfu(p@),
            CachePolicy::NoEviction(_) => PolicyModel::NoEviction,
        }
    }
}

impl<K: PartialEq> CachePolicy<K> {
    /// Creates an empty FIFO policy value.
    pub fn new_fifo() -> (r: Self)
        requires
            eq_is_logical_eq::<K>(),
        ensures
            r.inv(),
            r@ == PolicyModel::Fifo(Seq::<K>::empty()),
    {
        CachePolicy::FIFO(FIFO::new())
    }

    /// Creates an empty LRU policy value.
    pub fn new_lru() -> (r: Self)
        requires
            eq_is_logical_eq::<K>(),
        ensures
            r.inv(),
            r@ == PolicyModel::Lru(Seq::<K>::empty()),
    {
        CachePolicy::LRU(LRU::new())
    }

    /// Creates an empty LFU policy value.
    pub fn new_lfu() -> (r: Self)
        requires
            eq_is_logical_eq::<K>(),
        ensures
            r.inv(),
            r@ == PolicyModel::Lfu(Seq::<(K, u64)>::empty()),
    {
        CachePolicy::LFU(LFU::new())
    }

    /// Creates the policy value that never evicts.
    pub fn new_no_eviction() -> (r: Self)
        ensures
            r.inv(),
            r@ == PolicyModel::NoEviction::<K>,
    {
        CachePolicy::NoEviction(NoEviction::new())
    }
}

impl<K: PartialEq> EvictionPolicy<K> for CachePolicy<K> {
    open spec fn inv(&self) -> bool {
        match self {
            CachePolicy::FIFO(p) => p.inv(),
            CachePolicy::LRU(p) => p.inv(),
            CachePolicy::LFU(p) => p.inv(),
            CachePolicy::NoEviction(p) => p.inv(),
        }
    }

    open spec fn constrains(&self) -> bool {
        policy_constrains(self@)
    }

    open spec fn membership(&self) -> Set<K> {
        policy_membership(self@)
    }

    /// Forwards the read to the owned policy.
    fn on_get(&mut self, key: &K)
        ensures
            final(self)@ == policy_on_get(old(self)@, *key),
    {
        match self {
            CachePolicy::FIFO(p) => p.on_get(key),
            CachePolicy::LRU(p) => p.on_get(key),
            CachePolicy::LFU(p) => p.on_get(key),
            CachePolicy::NoEviction(p) => p.on_get(key),
        }
    }

    /// Forwards the write to the owned policy.
    fn on_set(&mut self, key: K)
        ensures
            final(self)@ == policy_on_set(old(self)@, key),
    {
        match self {
            CachePolicy::FIFO(p) => p.on_set(key),
            CachePolicy::LRU(p) => p.on_set(key),
            CachePolicy::LFU(p) => p.on_set(key),
            CachePolicy::NoEviction(p) => p.on_set(key),
        }
    }

    /// Asks the owned policy for its victim.
    fn evict(&mut self) -> (victim: Option<K>)
        ensures
            victim == policy_victim(old(self)@),
            final(self)@ == policy_after_evict(old(self)@),
    {
        match self {
            CachePolicy::FIFO(p) => p.evict(),
            CachePolicy::LRU(p) => p.evict(),
            CachePolicy::LFU(p) => p.evict(),
            CachePolicy::NoEviction(p) => p.evict(),
        }
    }

    /// Forwards the removal to the owned policy.
    fn remove(&mut self, key: K)
        ensures
            final(self)@ == policy_remove(old(self)@, key),
    {
        match self {
            CachePolicy::FIFO(p) => p.remove(key),
            CachePolicy::LRU(p) => p.remove(key),
            CachePolicy::LFU(p) => p.remove(key),
            CachePolicy::NoEviction(p) => p.remove(key),
        }
    }
}

} // verus!
