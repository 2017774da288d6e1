//! A Least-Recently-Used eviction policy.
//!
//! Keys are kept in order of most recent access; both reads and writes
//! refresh a key, and eviction returns the key accessed least recently. The
//! order is held directly as a duplicate-free sequence, least recent first,
//! in place of the intrusive doubly linked list a pointer-based
//! implementation would use.

use vstd::prelude::*;
use crate::common::eq_is_logical_eq;
use super::common::EvictionPolicy;
use super::common::find_key_position;
use super::common::lemma_front_removal_drops_one_member;
use super::common::lemma_mid_removal_drops_one_member;
use super::common::lemma_first_position_is_removal_point;

verus! {

/// The recency order after `k` is accessed: `k` moves to (or joins at) the
/// most-recent end; every other key keeps its relative position.
pub open spec fn lru_touch<K>(s: Seq<K>, k: K) -> Seq<K> {
    s.remove_value(k).push(k)
}

/// A Least-Recently-Used eviction policy.
///
/// Its view is the sequence of tracked keys ordered by recency of access,
/// least recent at index 0.
pub struct LRU<K> {
    /// Tracked keys, least recently accessed at index 0, most recent at the
    /// back.
    order: Vec<K>,
}

impl<K> View for LRU<K> {
    type V = Seq<K>;

    closed spec fn view(&self) -> Seq<K> {
        self.order@
    }
}

impl<K: PartialEq> LRU<K> {
    /// Bookkeeping is sound: the order holds each tracked key once and `==`
    /// on `K` decides logical equality.
    pub closed spec fn wf(&self) -> bool {
        &&& self.order@.no_duplicates()
        &&& eq_is_logical_eq::<K>()
    }

    /// Creates an empty LRU policy.
    pub fn new() -> (r: Self)
        requires
            eq_is_logical_eq::<K>(),
        ensures
            r.wf(),
            r@ == Seq::<K>::empty(),
    {
        Self { order: Vec::new() }
    }

    /// The number of keys this policy tracks.
    pub fn len(&self) -> (r: usize)
        ensures
            r == self@.len(),
    {
        self.order.len()
    }

    /// Marks `key` as the most recently used, if it is tracked; an untracked
    /// key is left alone.
    pub fn move_to_front(&mut self, key: &K)
        requires
            old(self).wf(),
        ensures
            final(self).wf(),
            old(self)@.contains(*key) ==> final(self)@ == lru_touch(old(self)@, *key),
            !old(self)@.contains(*key) ==> final(self)@ == old(self)@,
            final(self)@.to_set() == old(self)@.to_set(),
    {
        match find_key_position(&self.order, key) {
            Some(i) => {
                let k = self.order.remove(i);
                proof {
                    lemma_first_position_is_removal_point(old(self)@, *key, i as int);
                    lemma_mid_removal_drops_one_member(old(self)@, self@, i as int);
                }
                self.order.push(k);
                proof {
                    lemma_reinsertion_restores_members(old(self)@, self@, *key);
                }
            },
            None => {},
        }
    }

    /// Re-links `key` at the most-recent end, whether or not it was tracked
    /// before, and hands back ownership of the copy that leaves the order.
    fn relink_at_front(&mut self, key: K)
        requires
            old(self).wf(),
        ensures
            final(self).wf(),
            final(self)@ == lru_touch(old(self)@, key),
            final(self)@.to_set() == old(self)@.to_set().insert(key),
    {
        match find_key_position(&self.order, &key) {
            Some(i) => {
                self.order.remove(i);
                proof {
                    lemma_first_position_is_removal_point(old(self)@, key, i as int);
                    lemma_mid_removal_drops_one_member(old(self)@, self@, i as int);
                }
                self.order.push(key);
                proof {
                    lemma_reinsertion_restores_members(old(self)@, self@, key);
                    assert(old(self)@.to_set().insert(key) =~= old(self)@.to_set());
                }
            },
            None => {
                proof {
                    old(self)@.index_of_first_ensures(key);
                }
                self.order.push(key);
                proof {
                    old(self)@.lemma_push_to_set_commute(key);
                }
            },
        }
    }
}

/// After removing the sole occurrence of `k` from a duplicate-free sequence
/// and pushing it at the back, the members are unchanged and no key is
/// duplicated.
proof fn lemma_reinsertion_restores_members<K>(s: Seq<K>, t: Seq<K>, k: K)
    requires
        s.no_duplicates(),
        s.contains(k),
        t == s.remove_value(k).push(k),
        s.remove_value(k).no_duplicates(),
        !s.remove_value(k).contains(k),
        s.remove_value(k).to_set() == s.to_set().remove(k),
    ensures
        t.no_duplicates(),
        t.to_set() == s.to_set(),
{
    s.remove_value(k).lemma_push_to_set_commute(k);
    assert(s.to_set().remove(k).insert(k) =~= s.to_set());
}

/// One bookkeeping event an eviction policy sees: a read, a write, a
/// removal, or an eviction.
pub enum PolicyEvent<K> {
    Get(K),
    Put(K),
    Remove(K),
    Evict,
}

/// Whether an event is an access — a read or a write — of `k`.
pub open spec fn accesses<K>(e: PolicyEvent<K>, k: K) -> bool {
    match e {
        PolicyEvent::Get(x) => x == k,
        PolicyEvent::Put(x) => x == k,
        PolicyEvent::Remove(_) => false,
        PolicyEvent::Evict => false,
    }
}

/// The position of the most recent access of `k` in an event sequence, or
/// -1 when `k` was never accessed.
pub open spec fn last_access<K>(events: Seq<PolicyEvent<K>>, k: K) -> int
    decreases events.len(),
{
    if events.len() == 0 {
        -1
    } else if accesses(events.last(), k) {
        events.len() - 1
    } else {
        last_access(events.drop_last(), k)
    }
}

/// The recency order an initially empty LRU policy reaches after a sequence
/// of events, by the transitions its operations ensure: reads and writes
/// move the key to the most-recent end, removals drop it, evictions drop
/// the least recent key.
pub open spec fn lru_run<K>(events: Seq<PolicyEvent<K>>) -> Seq<K>
    decreases events.len(),
{
    if events.len() == 0 {
        Seq::empty()
    } else {
        let s = lru_run(events.drop_last());
        match events.last() {
            PolicyEvent::Get(k) => if s.contains(k) {
                lru_touch(s, k)
            } else {
                s
            },
            PolicyEvent::Put(k) => lru_touch(s, k),
            PolicyEvent::Remove(k) => s.remove_value(k),
            PolicyEvent::Evict => if s.len() > 0 {
                s.drop_first()
            } else {
                s
            },
        }
    }
}

/// The recency order reached by any event sequence holds each key once,
/// every tracked key was accessed at least once, and keys stand in it
/// ordered by their most recent access, oldest first.
pub proof fn lemma_lru_run_orders_accesses<K>(events: Seq<PolicyEvent<K>>)
    ensures
        lru_run(events).no_duplicates(),
        forall|i: int| #![trigger lru_run(events)[i]]
            0 <= i < lru_run(events).len() ==> 0 <= last_access(events, lru_run(events)[i])
                < events.len(),
        forall|i: int, j: int| #![trigger lru_run(events)[i], lru_run(events)[j]]
            0 <= i < j < lru_run(events).len() ==> last_access(events, lru_run(events)[i])
                < last_access(events, lru_run(events)[j]),
    decreases events.len(),
{
    if events.len() > 0 {
        let prev = events.drop_last();
        let s = lru_run(prev);
        let t = lru_run(events);
        lemma_lru_run_orders_accesses(prev);
        assert forall|x: K| !accesses(events.last(), x) implies last_access(events, x)
            == last_access(prev, x) by {}
        match events.last() {
            PolicyEvent::Get(k) => {
                if s.contains(k) {
                    lemma_touch_orders_accesses(events, prev, s, k);
                } else {
                    assert forall|i: int|
                        0 <= i < t.len() implies t[i] != k && last_access(events, t[i])
                        == last_access(prev, t[i]) by {}
                }
            },
            PolicyEvent::Put(k) => {
                lemma_touch_orders_accesses(events, prev, s, k);
            },
            PolicyEvent::Remove(k) => {
                assert(forall|x: K| !(#[trigger] accesses(events.last(), x)));
                lemma_sub_order_keeps_access_order(events, prev, s, s.remove_value(k), k);
            },
            PolicyEvent::Evict => {
                if s.len() > 0 {
                    assert forall|i: int| 0 <= i < t.len() implies t[i] == s[i + 1]
                        && !accesses(events.last(), t[i]) by {}
                    assert forall|i: int, j: int|
                        0 <= i < j < t.len() implies last_access(events, t[i]) < last_access(
                        events,
                        t[j],
                    ) by {
                        assert(s[i + 1] == t[i] && s[j + 1] == t[j]);
                    }
                }
            },
        }
    }
}

/// Dropping one key from a recency order keeps the remaining keys ordered
/// by their most recent access, which the new event does not change.
proof fn lemma_sub_order_keeps_access_order<K>(
    events: Seq<PolicyEvent<K>>,
    prev: Seq<PolicyEvent<K>>,
    s: Seq<K>,
    t: Seq<K>,
    k: K,
)
    requires
        events.len() > 0,
        prev == events.drop_last(),
        forall|x: K| !(#[trigger] accesses(events.last(), x)),
        forall|x: K| !accesses(events.last(), x) ==> last_access(events, x) == last_access(
            prev,
            x,
        ),
        s.no_duplicates(),
        forall|i: int| #![trigger s[i]]
            0 <= i < s.len() ==> 0 <= last_access(prev, s[i]) < prev.len(),
        forall|i: int, j: int| #![trigger s[i], s[j]]
            0 <= i < j < s.len() ==> last_access(prev, s[i]) < last_access(prev, s[j]),
        t == s.remove_value(k),
    ensures
        t.no_duplicates(),
        !t.contains(k),
        forall|i: int| #![trigger t[i]]
            0 <= i < t.len() ==> 0 <= last_access(events, t[i]) < events.len(),
        forall|i: int, j: int| #![trigger t[i], t[j]]
            0 <= i < j < t.len() ==> last_access(events, t[i]) < last_access(events, t[j]),
{
    s.index_of_first_ensures(k);
    if s.contains(k) {
        let m = s.index_of_first(k).unwrap();
        super::common::lemma_mid_removal_drops_one_member(s, t, m);
        assert forall|i: int| 0 <= i < t.len() implies t[i] == (if i < m {
            s[i]
        } else {
            s[i + 1]
        }) && !accesses(events.last(), t[i]) by {}
        assert forall|i: int, j: int|
            0 <= i < j < t.len() implies last_access(events, t[i]) < last_access(events, t[j]) by {
            let i0 = if i < m {
                i
            } else {
                i + 1
            };
            let j0 = if j < m {
                j
            } else {
                j + 1
            };
            assert(t[i] == s[i0] && t[j] == s[j0] && i0 < j0);
        }
    } else {
        assert(t == s);
        assert forall|i: int| 0 <= i < t.len() implies !accesses(events.last(), t[i]) by {}
        assert forall|i: int, j: int|
            0 <= i < j < t.len() implies last_access(events, t[i]) < last_access(events, t[j]) by {
            assert(s[i] == t[i] && s[j] == t[j]);
        }
    }
}

/// Touching `k` with the newest event puts it at the most-recent end with
/// the newest access of all, and leaves the other keys ordered as before.
proof fn lemma_touch_orders_accesses<K>(
    events: Seq<PolicyEvent<K>>,
    prev: Seq<PolicyEvent<K>>,
    s: Seq<K>,
    k: K,
)
    requires
        events.len() > 0,
        prev == events.drop_last(),
        accesses(events.last(), k),
        forall|x: K| !accesses(events.last(), x) ==> last_access(events, x) == last_access(
            prev,
            x,
        ),
        forall|x: K| accesses(events.last(), x) ==> x == k,
        s.no_duplicates(),
        forall|i: int| #![trigger s[i]]
            0 <= i < s.len() ==> 0 <= last_access(prev, s[i]) < prev.len(),
        forall|i: int, j: int| #![trigger s[i], s[j]]
            0 <= i < j < s.len() ==> last_access(prev, s[i]) < last_access(prev, s[j]),
    ensures
        lru_touch(s, k).no_duplicates(),
        forall|i: int| #![trigger lru_touch(s, k)[i]]
            0 <= i < lru_touch(s, k).len() ==> 0 <= last_access(events, lru_touch(s, k)[i])
                < events.len(),
        forall|i: int, j: int| #![trigger lru_touch(s, k)[i], lru_touch(s, k)[j]]
            0 <= i < j < lru_touch(s, k).len() ==> last_access(events, lru_touch(s, k)[i])
                < last_access(events, lru_touch(s, k)[j]),
{
    let u = s.remove_value(k);
    let t = lru_touch(s, k);
    s.index_of_first_ensures(k);
    if s.contains(k) {
        let m = s.index_of_first(k).unwrap();
        super::common::lemma_mid_removal_drops_one_member(s, u, m);
    }
    assert(last_access(events, k) == events.len() - 1);
    assert(t == u.push(k));
    assert forall|i: int| 0 <= i < u.len() implies t[i] == u[i] && u[i] != k && !accesses(
        events.last(),
        u[i],
    ) && u.contains(u[i]) by {}
    assert forall|i: int| 0 <= i < u.len() implies s.contains(u[i]) && 0 <= last_access(
        events,
        u[i],
    ) < prev.len() by {
        if s.contains(k) {
            let m = s.index_of_first(k).unwrap();
            let i0 = if i < m {
                i
            } else {
                i + 1
            };
            assert(u[i] == s[i0]);
        } else {
            assert(u[i] == s[i]);
        }
    }
    assert forall|i: int, j: int|
        0 <= i < j < u.len() implies last_access(events, u[i]) < last_access(events, u[j]) by {
        if s.contains(k) {
            let m = s.index_of_first(k).unwrap();
            let i0 = if i < m {
                i
            } else {
                i + 1
            };
            let j0 = if j < m {
                j
            } else {
                j + 1
            };
            assert(u[i] == s[i0] && u[j] == s[j0] && i0 < j0);
        } else {
            assert(u[i] == s[i] && u[j] == s[j]);
        }
    }
    assert forall|i: int, j: int|
        0 <= i < j < t.len() implies last_access(events, t[i]) < last_access(events, t[j]) by {
        if j < u.len() {
            assert(t[i] == u[i] && t[j] == u[j]);
        } else {
            assert(t[j] == k);
            assert(t[i] == u[i]);
            assert(last_access(events, u[i]) < events.len() - 1);
        }
    }
    assert forall|i: int| #![trigger t[i]] 0 <= i < t.len() implies 0 <= last_access(events, t[i])
        < events.len() by {
        if i < u.len() {
            assert(t[i] == u[i]);
        } else {
            assert(t[i] == k);
        }
    }
}

/// LRU evicts the key accessed least recently: after any sequence of reads,
/// writes, removals and evictions on an initially empty LRU policy, the key
/// eviction returns is the tracked key whose most recent read or write lies
/// strictly before the most recent read or write of every other tracked
/// key.
pub proof fn lemma_lru_evicts_least_recently_accessed<K>(events: Seq<PolicyEvent<K>>)
    requires
        lru_run(events).len() > 0,
    ensures
        forall|j: int| #![trigger lru_run(events)[j]]
            1 <= j < lru_run(events).len() ==> last_access(events, lru_run(events)[0])
                < last_access(events, lru_run(events)[j]),
{
    lemma_lru_run_orders_accesses(events);
}

impl<K: PartialEq> EvictionPolicy<K> for LRU<K> {
    open spec fn inv(&self) -> bool {
        self.wf()
    }

    open spec fn constrains(&self) -> bool {
        true
    }

    open spec fn membership(&self) -> Set<K> {
        self@.to_set()
    }

    /// A read refreshes the key's recency when it is tracked.
    fn on_get(&mut self, key: &K)
        ensures
            old(self)@.contains(*key) ==> final(self)@ == lru_touch(old(self)@, *key),
            !old(self)@.contains(*key) ==> final(self)@ == old(self)@,
    {
        self.move_to_front(key);
    }

    /// A write moves the key to the most-recent end, linking it anew when it
    /// was not tracked.
    fn on_set(&mut self, key: K)
        ensures
            final(self)@ == lru_touch(old(self)@, key),
    {
        self.relink_at_front(key);
    }

    /// Removes and returns the least recently used key, or `None` when
    /// nothing is tracked.
    fn evict(&mut self) -> (victim: Option<K>)
        ensures
            old(self)@.len() == 0 ==> victim is None && final(self)@ == old(self)@,
            old(self)@.len() > 0 ==> victim == Some(old(self)@[0]) && final(self)@ == old(
                self,
            )@.drop_first(),
    {
        if self.order.len() == 0 {
            None
        } else {
            let k = self.order.remove(0);
            proof {
                lemma_front_removal_drops_one_member(old(self)@, self@);
            }
            Some(k)
        }
    }

    /// Drops `key` from the recency order wherever it stands; an untracked
    /// key is tolerated.
    fn remove(&mut self, key: K)
        ensures
            final(self)@ == old(self)@.remove_value(key),
    {
        match find_key_position(&self.order, &key) {
            Some(i) => {
                self.order.remove(i);
                proof {
                    lemma_first_position_is_removal_point(old(self)@, key, i as int);
                    lemma_mid_removal_drops_one_member(old(self)@, self@, i as int);
                }
            },
            None => {
                proof {
                    old(self)@.index_of_first_ensures(key);
                    assert(self@.to_set() =~= self@.to_set().remove(key));
                }
            },
        }
    }
}

} // verus!
