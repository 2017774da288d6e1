//! The in-memory keyed store: a map from keys to entries, a capacity bound,
//! and an owned eviction policy consulted on every operation.

use vstd::prelude::*;
use std::collections::HashMap;
use core::hash::Hash;
use crate::aof::CacheError;
use crate::aof::RawRecordModel;
use crate::aof::lemma_log_round_trip;
use crate::aof::raw_record_wf;
use crate::aof::spec_decode_replay;
use crate::aof::spec_encode_all;
use crate::common::AOFRecord;
use crate::common::CacheEntry;
use crate::common::Operation;
use crate::common::clone_is_identity;
use crate::common::reliable_key;
use crate::config::CacheSyncConfig;
use crate::config::empty_policy_model;
use crate::eviction_policies::CachePolicy;
use crate::eviction_policies::PolicyModel;
use crate::eviction_policies::common::EvictionPolicy;
use crate::eviction_policies::policy_after_evict;
use crate::eviction_policies::policy_constrains;
use crate::eviction_policies::policy_membership;
use crate::eviction_policies::policy_on_get;
use crate::eviction_policies::policy_on_set;
use crate::eviction_policies::policy_remove;
use crate::eviction_policies::policy_victim;

verus! {

broadcast use vstd::std_specs::hash::group_hash_axioms;

/// The abstract state of a cache: its capacity, the abstract state of its
/// policy, and the key-to-value mapping it stores.
#[verifier::reject_recursive_types(K)]
pub struct CacheState<K, V> {
    pub capacity: usize,
    pub policy: PolicyModel<K>,
    pub store: Map<K, V>,
}

/// The number of keys a cache may hold: the configured capacity, except that
/// a capacity of zero admits one key, because an insert into a full cache
/// first evicts exactly one victim.
pub open spec fn effective_capacity(capacity: usize) -> nat {
    if capacity == 0 {
        1
    } else {
        capacity as nat
    }
}

/// The cache state after a read of `k`: the policy records the access, the
/// store does not change.
pub open spec fn state_get<K, V>(s: CacheState<K, V>, k: K) -> CacheState<K, V> {
    CacheState { capacity: s.capacity, policy: policy_on_get(s.policy, k), store: s.store }
}

/// The cache state after a write of `k` to `v`: when the store is full and
/// `k` is new, the policy's victim leaves first; then `k` maps to `v` and
/// the policy records the write.
pub open spec fn state_put<K, V>(s: CacheState<K, V>, k: K, v: V) -> CacheState<K, V> {
    let evicting = s.store.len() >= s.capacity && !s.store.contains_key(k);
    let store1 = if evicting {
        match policy_victim(s.policy) {
            Some(e) => s.store.remove(e),
            None => s.store,
        }
    } else {
        s.store
    };
    let policy1 = if evicting {
        policy_after_evict(s.policy)
    } else {
        s.policy
    };
    CacheState {
        capacity: s.capacity,
        policy: policy_on_set(policy1, k),
        store: store1.insert(k, v),
    }
}

/// The cache state after `k` is removed from store and policy alike.
pub open spec fn state_remove<K, V>(s: CacheState<K, V>, k: K) -> CacheState<K, V> {
    CacheState { capacity: s.capacity, policy: policy_remove(s.policy, k), store: s.store.remove(k) }
}

/// Whether a log record can be applied without failing: a `Put` carries a
/// value, the other operations carry none.
pub open spec fn record_applicable<K, V>(r: AOFRecord<K, V>) -> bool {
    (r.operation is Put) ==> (r.value is Some)
}

/// The cache state after one log record is applied.
pub open spec fn state_apply<K, V>(s: CacheState<K, V>, r: AOFRecord<K, V>) -> CacheState<K, V> {
    match r.operation {
        Operation::Get => state_get(s, r.key),
        Operation::Put => state_put(s, r.key, r.value->Some_0),
        Operation::Remove => state_remove(s, r.key),
    }
}

/// The cache state after a sequence of log records is applied in order.
pub open spec fn state_replay<K, V>(s: CacheState<K, V>, rs: Seq<AOFRecord<K, V>>) -> CacheState<
    K,
    V,
>
    decreases rs.len(),
{
    if rs.len() == 0 {
        s
    } else {
        state_replay(state_apply(s, rs[0]), rs.drop_first())
    }
}

/// A generic in-memory cache: a hash map of entries bounded by a capacity,
/// with victim selection delegated to the owned eviction policy.
///
/// This is the basic, synchronous cache. Persistence and concurrent use are
/// layered on top of it by a facade that owns one of these.
pub struct Cache<K, V> where K: Eq + Hash + Clone {
    /// The maximum size of the cache in number of entries.
    max_size: usize,
    /// The internal map storing key-value pairs as cache entries.
    cache: HashMap<K, CacheEntry<V>>,
    /// The eviction policy consulted on every access and insert.
    eviction_policy: CachePolicy<K>,
}

impl<K, V> Cache<K, V> where K: Eq + Hash + Clone {
    /// The abstract state this cache is in.
    pub closed spec fn state(&self) -> CacheState<K, V> {
        CacheState {
            capacity: self.max_size,
            policy: self.eviction_policy@,
            store: self.cache@.map_values(|e: CacheEntry<V>| e.value),
        }
    }

    /// The key-to-value mapping this cache stores.
    pub open spec fn store(&self) -> Map<K, V> {
        self.state().store
    }

    /// The abstract state of the owned policy.
    pub open spec fn policy_state(&self) -> PolicyModel<K> {
        self.state().policy
    }

    /// The configured capacity.
    pub open spec fn capacity(&self) -> usize {
        self.state().capacity
    }

    /// The cache is well formed: the key type is reliable, the policy's
    /// bookkeeping is sound, and under a constraining policy the tracked
    /// keys are exactly the stored keys and the store respects the capacity.
    pub closed spec fn wf(&self) -> bool {
        &&& reliable_key::<K>()
        &&& self.eviction_policy.inv()
        &&& policy_constrains(self.eviction_policy@) ==> {
            &&& policy_membership(self.eviction_policy@) == self.cache@.dom()
            &&& self.cache@.len() <= effective_capacity(self.max_size)
        }
    }

    /// Creates an empty cache as the configuration directs.
    pub fn new(config: CacheSyncConfig) -> (r: Self)
        requires
            reliable_key::<K>(),
        ensures
            r.wf(),
            r.state() == (CacheState::<K, V> {
                capacity: config.spec_max_size(),
                policy: empty_policy_model::<K>(config.spec_policy_type()),
                store: Map::empty(),
            }),
    {
        let max_size = config.get_config().max_size;
        let policy_type = config.get_policy_type();
        let r = Cache { cache: HashMap::new(), max_size, eviction_policy: policy_type.create_policy() };
        proof {
            assert(r.state().store =~= Map::<K, V>::empty());
            assert(policy_membership(r.eviction_policy@) =~= r.cache@.dom());
        }
        r
    }

    /// Retrieves the value stored under `key`, telling the policy about the
    /// access; the store itself does not change.
    pub fn get(&mut self, key: &K) -> (r: Option<&V>)
        requires
            old(self).wf(),
        ensures
            final(self).wf(),
            final(self).state() == state_get(old(self).state(), *key),
            match r {
                Some(v) => old(self).store().contains_key(*key) && *v == old(self).store()[*key],
                None => !old(self).store().contains_key(*key),
            },
    {
        proof {
            lemma_store_entry(self.cache@, *key);
        }
        self.eviction_policy.on_get(key);
        match self.cache.get(key) {
            Some(e) => Some(&e.value),
            None => None,
        }
    }

    /// Retrieves a mutable borrow of the value stored under `key`, telling
    /// the policy about the access. Until the borrow ends the caller may
    /// rewrite the value in place; the set of stored keys does not change.
    pub fn get_mut(&mut self, key: &K) -> (r: Option<&mut V>)
        requires
            old(self).wf(),
        ensures
            final(self).wf(),
            match r {
                Some(v) => old(self).store().contains_key(*key) && *v == old(self).store()[*key]
                    && final(self).state() == (CacheState {
                    store: state_get(old(self).state(), *key).store.insert(*key, *final(v)),
                    ..state_get(old(self).state(), *key)
                }),
                None => !old(self).store().contains_key(*key) && final(self).state() == state_get(
                    old(self).state(),
                    *key,
                ),
            },
    {
        proof {
            lemma_store_entry(self.cache@, *key);
        }
        self.eviction_policy.on_get(key);
        if self.cache.contains_key(key) {
            let owned_key = clone_key(key);
            let ghost pre = self.cache@;
            match self.cache.entry(owned_key) {
                std::collections::hash_map::Entry::Occupied(occ) => {
                    let e = occ.into_mut();
                    let v = &mut e.value;
                    proof {
                        lemma_store_insert(pre, *key, CacheEntry { value: *final(v) });
                    }
                    Some(v)
                },
                std::collections::hash_map::Entry::Vacant(_) => {
                    proof {
                        assert(false);
                    }
                    None
                },
            }
        } else {
            None
        }
    }

    /// Inserts or overwrites the value under `key`. When the store is full
    /// and `key` is new, the policy's victim is removed first, so a
    /// constraining policy keeps the store within its capacity; overwriting
    /// never evicts and never grows the store.
    pub fn put(&mut self, key: K, value: V)
        requires
            old(self).wf(),
        ensures
            final(self).wf(),
            final(self).state() == state_put(old(self).state(), key, value),
    {
        let ghost pre = self.cache@;
        if self.cache.len() >= self.max_size && !self.contains_key(&key) {
            if let Some(evicted) = self.eviction_policy.evict() {
                proof {
                    lemma_store_remove(self.cache@, evicted);
                }
                self.cache.remove(&evicted);
            }
        }
        let ghost mid = self.cache@;
        proof {
            lemma_store_entry(pre, key);
            lemma_store_insert(mid, key, CacheEntry { value: value });
        }
        let owned_key = clone_key(&key);
        self.cache.insert(owned_key, CacheEntry::new(value));
        self.eviction_policy.on_set(key);
    }

    /// Removes the entry under `key` from the store and from the policy's
    /// bookkeeping; a key that is not stored is tolerated.
    pub fn remove(&mut self, key: &K)
        requires
            old(self).wf(),
        ensures
            final(self).wf(),
            final(self).state() == state_remove(old(self).state(), *key),
    {
        proof {
            lemma_store_remove(self.cache@, *key);
        }
        self.cache.remove(key);
        let owned_key = clone_key(key);
        self.eviction_policy.remove(owned_key);
    }

    /// Whether `key` is stored; this does not count as an access.
    pub fn contains_key(&self, key: &K) -> (r: bool)
        requires
            self.wf(),
        ensures
            r == self.store().contains_key(*key),
    {
        proof {
            lemma_store_entry(self.cache@, *key);
        }
        self.cache.contains_key(key)
    }

    /// The number of keys stored at the moment.
    pub fn size(&self) -> (r: usize)
        requires
            self.wf(),
        ensures
            r == self.store().len(),
    {
        proof {
            lemma_store_dom(self.cache@);
        }
        self.cache.len()
    }

    /// Applies one log record to this cache: a recorded read is replayed as
    /// a read so the policy's bookkeeping follows it, a recorded write
    /// writes, a recorded removal removes.
    pub fn apply_record(&mut self, record: AOFRecord<K, V>)
        requires
            old(self).wf(),
            record_applicable(record),
        ensures
            final(self).wf(),
            final(self).state() == state_apply(old(self).state(), record),
    {
        match record.operation {
            Operation::Get => {
                let _ = self.get(&record.key);
            },
            Operation::Put => {
                match record.value {
                    Some(v) => self.put(record.key, v),
                    None => {
                        proof {
                            assert(false);
                        }
                    },
                }
            },
            Operation::Remove => {
                self.remove(&record.key);
            },
        }
    }

    /// Applies a sequence of log records in order, as recovery does after a
    /// restart.
    pub fn replay(&mut self, records: Vec<AOFRecord<K, V>>)
        requires
            old(self).wf(),
            forall|i: int| 0 <= i < records@.len() ==> record_applicable(#[trigger] records@[i]),
        ensures
            final(self).wf(),
            final(self).state() == state_replay(old(self).state(), records@),
    {
        let ghost all = records@;
        let ghost start = old(self).state();
        let mut rest = records;
        while rest.len() > 0
            invariant
                self.wf(),
                forall|i: int| 0 <= i < rest@.len() ==> record_applicable(#[trigger] rest@[i]),
                state_replay(start, all) == state_replay(self.state(), rest@),
            decreases rest@.len(),
        {
            let r = rest.remove(0);
            self.apply_record(r);
        }
    }
}

/// Bounded size: a well-formed cache under a constraining policy never
/// stores more keys than its capacity allows, at any observable point (a
/// configured capacity of zero admits a single key). Every operation
/// preserves well-formedness, so this bound holds after any sequence of
/// operations.
pub proof fn lemma_size_within_capacity<K: Eq + Hash + Clone, V>(c: &Cache<K, V>)
    requires
        c.wf(),
        policy_constrains(c.policy_state()),
    ensures
        c.store().len() <= effective_capacity(c.capacity()),
        c.capacity() >= 1 ==> c.store().len() <= c.capacity(),
{
    lemma_store_dom(c.cache@);
}

/// Membership agreement: in a well-formed cache under a constraining
/// policy, the set of keys the policy tracks is exactly the set of keys the
/// store holds. Every operation preserves well-formedness, so the two stay
/// equal after any sequence of operations.
pub proof fn lemma_membership_matches_store<K: Eq + Hash + Clone, V>(c: &Cache<K, V>)
    requires
        c.wf(),
        policy_constrains(c.policy_state()),
    ensures
        policy_membership(c.policy_state()) == c.store().dom(),
{
    lemma_store_dom(c.cache@);
}

/// Idempotence of a recorded run: replaying `a` and then `b` leaves the
/// same state as replaying `a + b` in one pass. In particular, applying an
/// operation sequence, reopening from its log, and applying the sequence
/// again leaves exactly the state of applying the sequence twice in direct
/// succession: the reopening in between changes nothing.
pub proof fn lemma_replay_append<K, V>(
    s: CacheState<K, V>,
    a: Seq<AOFRecord<K, V>>,
    b: Seq<AOFRecord<K, V>>,
)
    ensures
        state_replay(s, a + b) == state_replay(state_replay(s, a), b),
    decreases a.len(),
{
    if a.len() == 0 {
        assert(a + b =~= b);
    } else {
        assert((a + b)[0] == a[0]);
        assert((a + b).drop_first() =~= a.drop_first() + b);
        lemma_replay_append(state_apply(s, a[0]), a.drop_first(), b);
    }
}

/// Replay equivalence: a run records every operation, reads included, and
/// the log holds the records' wire bytes in operation order. A new cache
/// over the same configuration decodes that log and replays it. Provided
/// the injected payload codec reads back each record it wrote (`lift`
/// undoes the payload encoding), the log decodes to exactly the written
/// records, and the rebuilt cache reaches exactly the state of the original
/// run — so it answers every lookup and every membership question as the
/// original cache would.
pub proof fn lemma_replay_equivalence<K, V>(
    init: CacheState<K, V>,
    ops: Seq<AOFRecord<K, V>>,
    raws: Seq<RawRecordModel>,
    lift: spec_fn(RawRecordModel) -> AOFRecord<K, V>,
)
    requires
        raws.len() == ops.len(),
        forall|i: int| 0 <= i < raws.len() ==> raw_record_wf(#[trigger] raws[i]),
        forall|i: int| 0 <= i < raws.len() ==> lift(#[trigger] raws[i]) == ops[i],
    ensures
        spec_decode_replay(spec_encode_all(raws), 0) == Ok::<_, CacheError>(raws),
        state_replay(init, raws.map_values(lift)) == state_replay(init, ops),
{
    lemma_log_round_trip(raws);
    assert(raws.map_values(lift) =~= ops);
}

/// Clones a key; under a reliable key type the copy equals the original.
fn clone_key<K: Clone>(key: &K) -> (r: K)
    requires
        clone_is_identity::<K>(),
    ensures
        r == *key,
{
    let r = key.clone();
    proof {
        assert(vstd::pervasive::cloned(*key, r));
    }
    r
}

/// The stored mapping is the entry map with each entry replaced by its
/// value: same domain, and under each key the entry's value.
proof fn lemma_store_dom<K, V>(m: Map<K, CacheEntry<V>>)
    ensures
        m.map_values(|e: CacheEntry<V>| e.value).dom() == m.dom(),
{
    assert(m.map_values(|e: CacheEntry<V>| e.value).dom() =~= m.dom());
}

/// Looking a key up in the stored mapping agrees with looking it up in the
/// entry map.
proof fn lemma_store_entry<K, V>(m: Map<K, CacheEntry<V>>, k: K)
    ensures
        m.map_values(|e: CacheEntry<V>| e.value).dom() == m.dom(),
        m.contains_key(k) ==> m.map_values(|e: CacheEntry<V>| e.value)[k] == m[k].value,
{
    lemma_store_dom(m);
}

/// Inserting an entry and then taking values is the same as taking values
/// and then inserting the entry's value.
proof fn lemma_store_insert<K, V>(m: Map<K, CacheEntry<V>>, k: K, e: CacheEntry<V>)
    ensures
        m.insert(k, e).map_values(|x: CacheEntry<V>| x.value) == m.map_values(
            |x: CacheEntry<V>| x.value,
        ).insert(k, e.value),
        m.insert(k, e).dom() == m.dom().insert(k),
        m.contains_key(k) ==> m.insert(k, e).dom() == m.dom() && m.insert(k, e).len() == m.len(),
        !m.contains_key(k) && m.dom().finite() ==> m.insert(k, e).len() == m.len() + 1,
{
    assert(m.insert(k, e).dom() =~= m.dom().insert(k));
    if m.contains_key(k) {
        assert(m.insert(k, e).dom() =~= m.dom());
    } else if m.dom().finite() {
        vstd::set::axiom_set_insert_len(m.dom(), k);
    }
    assert(m.insert(k, e).map_values(|x: CacheEntry<V>| x.value) =~= m.map_values(
        |x: CacheEntry<V>| x.value,
    ).insert(k, e.value));
}

/// Removing a key and then taking values is the same as taking values and
/// then removing the key.
proof fn lemma_store_remove<K, V>(m: Map<K, CacheEntry<V>>, k: K)
    ensures
        m.remove(k).map_values(|x: CacheEntry<V>| x.value) == m.map_values(
            |x: CacheEntry<V>| x.value,
        ).remove(k),
{
    assert(m.remove(k).map_values(|x: CacheEntry<V>| x.value) =~= m.map_values(
        |x: CacheEntry<V>| x.value,
    ).remove(k));
}

} // verus!
