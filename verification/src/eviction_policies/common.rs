//! The contract every eviction policy offers to the store, and helpers the
//! reference policies share.

use vstd::prelude::*;
use crate::common::eq_is_logical_eq;

verus! {

/// A strategy deciding which key leaves the cache when it is full.
///
/// A policy tracks a set of keys, its membership. The store keeps that
/// membership equal to its own key set, and relies on this contract when it
/// asks the policy for a victim. A policy that does not constrain the cache
/// (it tracks nothing and never yields a victim) reports `constrains()`
/// false; for such a policy the membership stays empty and the store does not
/// bound its size.
pub trait EvictionPolicy<K>: Sized {
    /// Internal well-formedness of the policy's bookkeeping.
    spec fn inv(&self) -> bool;

    /// Whether this policy tracks keys and produces eviction victims.
    spec fn constrains(&self) -> bool;

    /// The set of keys this policy currently tracks.
    spec fn membership(&self) -> Set<K>;

    /// Called after a successful read of `key`; may reorder bookkeeping but
    /// never changes the membership.
    fn on_get(&mut self, key: &K)
        requires
            old(self).inv(),
        ensures
            final(self).inv(),
            final(self).constrains() == old(self).constrains(),
            final(self).membership() == old(self).membership(),
    ;

    /// Called after an insert or overwrite of `key`; a constraining policy
    /// then tracks `key`.
    fn on_set(&mut self, key: K)
        requires
            old(self).inv(),
        ensures
            final(self).inv(),
            final(self).constrains() == old(self).constrains(),
            final(self).constrains() ==> final(self).membership() == old(self).membership().insert(
                key,
            ),
            !final(self).constrains() ==> final(self).membership() == old(self).membership(),
    ;

    /// Returns and stops tracking the victim this policy dictates. A
    /// constraining policy returns `None` only when it tracks nothing.
    fn evict(&mut self) -> (victim: Option<K>)
        requires
            old(self).inv(),
        ensures
            final(self).inv(),
            final(self).constrains() == old(self).constrains(),
            match victim {
                Some(k) => old(self).membership().contains(k) && final(self).membership() == old(
                    self,
                ).membership().remove(k),
                None => {
                    &&& final(self).membership() == old(self).membership()
                    &&& final(self).constrains() ==> old(self).membership().is_empty()
                },
            },
    ;

    /// Unconditionally drops `key` from the policy's bookkeeping; a key the
    /// policy does not track is tolerated.
    fn remove(&mut self, key: K)
        requires
            old(self).inv(),
        ensures
            final(self).inv(),
            final(self).constrains() == old(self).constrains(),
            final(self).membership() == old(self).membership().remove(key),
    ;
}

/// Finds the first position of `key` in `items`, if any.
pub(crate) fn find_key_position<K: PartialEq>(items: &Vec<K>, key: &K) -> (r: Option<usize>)
    requires
        eq_is_logical_eq::<K>(),
    ensures
        match r {
            Some(i) => i < items@.len() && items@[i as int] == *key && forall|j: int|
                0 <= j < i ==> items@[j] != *key,
            None => !items@.contains(*key),
        },
{
    let mut i: usize = 0;
    while i < items.len()
        invariant
            eq_is_logical_eq::<K>(),
            i <= items@.len(),
            forall|j: int| 0 <= j < i ==> items@[j] != *key,
        decreases items@.len() - i,
    {
        if items[i] == *key {
            return Some(i);
        }
        i += 1;
    }
    None
}

/// Removing the front of a duplicate-free sequence removes exactly that key
/// from the set of its members.
pub(crate) proof fn lemma_front_removal_drops_one_member<K>(s: Seq<K>, t: Seq<K>)
    requires
        s.no_duplicates(),
        s.len() > 0,
        t == s.remove(0),
    ensures
        t.no_duplicates(),
        t.to_set() == s.to_set().remove(s[0]),
        t == s.drop_first(),
        !t.contains(s[0]),
{
    lemma_mid_removal_drops_one_member(s, t, 0);
    assert(t =~= s.drop_first());
}

/// Removing any position of a duplicate-free sequence removes exactly the
/// key at that position from the set of its members.
pub(crate) proof fn lemma_mid_removal_drops_one_member<K>(s: Seq<K>, t: Seq<K>, i: int)
    requires
        s.no_duplicates(),
        0 <= i < s.len(),
        t == s.remove(i),
    ensures
        t.no_duplicates(),
        t.to_set() == s.to_set().remove(s[i]),
        !t.contains(s[i]),
{
    assert forall|x: K| t.to_set().contains(x) implies s.to_set().remove(s[i]).contains(x) by {
        let j = choose|j: int| 0 <= j < t.len() && t[j] == x;
        if j < i {
            assert(s[j] == x);
        } else {
            assert(s[j + 1] == x);
        }
    }
    assert forall|x: K| s.to_set().remove(s[i]).contains(x) implies t.to_set().contains(x) by {
        let j = choose|j: int| 0 <= j < s.len() && s[j] == x;
        if j < i {
            assert(t[j] == x);
        } else {
            assert(t[j - 1] == x);
        }
    }
    assert(t.to_set() =~= s.to_set().remove(s[i]));
}

/// The first position `find_key_position` reports is the one `remove_value`
/// removes, so removing at that position yields `s.remove_value(k)`.
pub(crate) proof fn lemma_first_position_is_removal_point<K>(s: Seq<K>, k: K, i: int)
    requires
        0 <= i < s.len(),
        s[i] == k,
        forall|j: int| 0 <= j < i ==> s[j] != k,
    ensures
        s.index_of_first(k) == Some(i),
        s.remove_value(k) == s.remove(i),
{
    s.index_of_first_ensures(k);
}

} // verus!
