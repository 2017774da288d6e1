//! A First-In-First-Out eviction policy.
//!
//! Keys are tracked in insertion order; eviction returns the oldest tracked
//! key. Overwrites do not refresh a key's position and reads never reorder.
//! The order is held directly as a duplicate-free sequence of live keys, so
//! the tombstone bookkeeping that an amortized queue would need is not
//! required here.

use vstd::prelude::*;
use crate::common::eq_is_logical_eq;
use super::common::EvictionPolicy;
use super::common::find_key_position;
use super::common::lemma_front_removal_drops_one_member;
use super::common::lemma_mid_removal_drops_one_member;
use super::common::lemma_first_position_is_removal_point;

verus! {

/// The insertion order after a key is set: a new key joins at the back, an
/// already-tracked key keeps its place.
pub open spec fn fifo_on_set<K>(s: Seq<K>, k: K) -> Seq<K> {
    if s.contains(k) {
        s
    } else {
        s.push(k)
    }
}

/// A First-In-First-Out eviction policy.
///
/// Its view is the sequence of tracked keys, oldest first.
pub struct FIFO<K> {
    /// Tracked keys in insertion order, oldest at index 0.
    queue: Vec<K>,
}

impl<K> View for FIFO<K> {
    type V = Seq<K>;

    closed spec fn view(&self) -> Seq<K> {
        self.queue@
    }
}

impl<K: PartialEq> FIFO<K> {
    /// Bookkeeping is sound: the order holds each tracked key once and `==`
    /// on `K` decides logical equality.
    pub closed spec fn wf(&self) -> bool {
        &&& self.queue@.no_duplicates()
        &&& eq_is_logical_eq::<K>()
    }

    /// Creates an empty FIFO policy.
    pub fn new() -> (r: Self)
        requires
            eq_is_logical_eq::<K>(),
        ensures
            r.wf(),
            r@ == Seq::<K>::empty(),
    {
        Self { queue: Vec::new() }
    }

}

impl<K: PartialEq> EvictionPolicy<K> for FIFO<K> {
    open spec fn inv(&self) -> bool {
        self.wf()
    }

    open spec fn constrains(&self) -> bool {
        true
    }

    open spec fn membership(&self) -> Set<K> {
        self@.to_set()
    }

    /// A read never reorders a FIFO queue.
    fn on_get(&mut self, key: &K)
        ensures
            final(self)@ == old(self)@,
    {
    }

    /// Appends a newly tracked key at the back; an already-tracked key keeps
    /// its place.
    fn on_set(&mut self, key: K)
        ensures
            final(self)@ == fifo_on_set(old(self)@, key),
    {
        match find_key_position(&self.queue, &key) {
            Some(_) => {
                proof {
                    assert(self@.to_set() =~= self@.to_set().insert(key));
                }
            },
            None => {
                self.queue.push(key);
                proof {
                    old(self)@.lemma_push_to_set_commute(key);
                }
            },
        }
    }

    /// Removes and returns the oldest tracked key, or `None` when nothing is
    /// tracked.
    fn evict(&mut self) -> (victim: Option<K>)
        ensures
            old(self)@.len() == 0 ==> victim is None && final(self)@ == old(self)@,
            old(self)@.len() > 0 ==> victim == Some(old(self)@[0]) && final(self)@ == old(
                self,
            )@.drop_first(),
    {
        if self.queue.len() == 0 {
            None
        } else {
            let k = self.queue.remove(0);
            proof {
                lemma_front_removal_drops_one_member(old(self)@, self@);
            }
            Some(k)
        }
    }

    /// Drops `key` from the insertion order wherever it stands; an untracked
    /// key is tolerated.
    fn remove(&mut self, key: K)
        ensures
            final(self)@ == old(self)@.remove_value(key),
    {
        match find_key_position(&self.queue, &key) {
            Some(i) => {
                self.queue.remove(i);
                proof {
                    lemma_first_position_is_removal_point(old(self)@, key, i as int);
                    lemma_mid_removal_drops_one_member(old(self)@, self@, i as int);
                }
            },
            None => {
                proof {
                    old(self)@.index_of_first_ensures(key);
                    assert(self@.to_set() =~= self@.to_set().remove(key));
                }
            },
        }
    }
}

} // verus!
