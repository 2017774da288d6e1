//! The policy that never evicts.

use vstd::prelude::*;
use super::common::EvictionPolicy;

verus! {

/// A policy that tracks nothing and never yields a victim; a cache using it
/// does not bound its size.
pub struct NoEviction<K> {
    _phantom: core::marker::PhantomData<K>,
}

impl<K> NoEviction<K> {
    /// Creates the no-eviction policy.
    pub fn new() -> (r: Self)
        ensures
            r.inv(),
    {
        Self { _phantom: core::marker::PhantomData }
    }
}

impl<K> EvictionPolicy<K> for NoEviction<K> {
    open spec fn inv(&self) -> bool {
        true
    }

    open spec fn constrains(&self) -> bool {
        false
    }

    open spec fn membership(&self) -> Set<K> {
        Set::empty()
    }

    /// Nothing to record.
    fn on_get(&mut self, key: &K) {
    }

    /// Nothing to record.
    fn on_set(&mut self, key: K) {
    }

    /// Never yields a victim.
    fn evict(&mut self) -> (victim: Option<K>)
        ensures
            victim is None,
    {
        None
    }

    /// Nothing to drop.
    fn remove(&mut self, key: K) {
        proof {
            assert(Set::<K>::empty() =~= Set::<K>::empty().remove(key));
        }
    }
}

} // verus!
