//! A Least-Frequently-Used eviction policy.
//!
//! Every tracked key carries an access count; eviction removes a key with
//! the smallest count, and among keys tied for the smallest count the one
//! whose most recent access is oldest. The state is held as one
//! duplicate-free sequence of key/count pairs ordered by recency of access
//! (least recent first), which plays the role of the frequency-bucket table
//! a constant-time implementation would keep.

use vstd::prelude::*;
use crate::common::eq_is_logical_eq;
use super::common::EvictionPolicy;
use super::lru::PolicyEvent;
use super::lru::accesses;
use super::lru::last_access;

verus! {

/// Whether some pair of `s` carries the key `k`.
pub open spec fn lfu_contains_key<K>(s: Seq<(K, u64)>, k: K) -> bool {
    exists|i: int| 0 <= i < s.len() && s[i].0 == k
}

/// The position of the pair carrying `k`; meaningful only when the keys of
/// `s` are distinct and `k` is among them.
pub open spec fn lfu_index_of<K>(s: Seq<(K, u64)>, k: K) -> int {
    choose|i: int| 0 <= i < s.len() && s[i].0 == k
}

/// The set of keys the pairs of `s` carry.
pub open spec fn lfu_key_set<K>(s: Seq<(K, u64)>) -> Set<K> {
    Set::new(|k: K| lfu_contains_key(s, k))
}

/// No two pairs of `s` carry the same key.
pub open spec fn lfu_keys_distinct<K>(s: Seq<(K, u64)>) -> bool {
    forall|i: int, j: int| 0 <= i < j < s.len() ==> s[i].0 != s[j].0
}

/// An access count after one more access: counts saturate at the largest
/// representable value instead of wrapping.
pub open spec fn lfu_bump(f: u64) -> u64 {
    if f == u64::MAX {
        f
    } else {
        (f + 1) as u64
    }
}

/// The state after an access to `k`: its pair moves to the most-recent end
/// with its count raised by one; an untracked key changes nothing.
pub open spec fn lfu_access<K>(s: Seq<(K, u64)>, k: K) -> Seq<(K, u64)> {
    if lfu_contains_key(s, k) {
        let i = lfu_index_of(s, k);
        s.remove(i).push((s[i].0, lfu_bump(s[i].1)))
    } else {
        s
    }
}

/// The state after `k` is set: a new key joins at the most-recent end with
/// count 1; an already-tracked key is accessed as by `lfu_access`.
pub open spec fn lfu_on_set<K>(s: Seq<(K, u64)>, k: K) -> Seq<(K, u64)> {
    if lfu_contains_key(s, k) {
        lfu_access(s, k)
    } else {
        s.push((k, 1u64))
    }
}

/// The state after `k` is dropped; an untracked key changes nothing.
pub open spec fn lfu_remove<K>(s: Seq<(K, u64)>, k: K) -> Seq<(K, u64)> {
    if lfu_contains_key(s, k) {
        s.remove(lfu_index_of(s, k))
    } else {
        s
    }
}

/// The position eviction takes: the first pair whose count is minimal. Since
/// the sequence is ordered by recency, the first minimal pair is the one
/// least recently accessed among those tied for the smallest count.
pub open spec fn lfu_victim_index<K>(s: Seq<(K, u64)>) -> int
    decreases s.len(),
{
    if s.len() <= 1 {
        0
    } else {
        let r = lfu_victim_index(s.drop_last());
        if s.last().1 < s[r].1 {
            s.len() - 1
        } else {
            r
        }
    }
}

/// The victim position is in range, carries a count no larger than any
/// other, and every earlier pair has a strictly larger count — so eviction
/// takes the least frequently used key and breaks ties towards the key whose
/// most recent access is oldest.
pub proof fn lemma_lfu_victim_minimal<K>(s: Seq<(K, u64)>)
    requires
        s.len() > 0,
    ensures
        0 <= lfu_victim_index(s) < s.len(),
        forall|j: int| #![trigger s[j]] 0 <= j < s.len() ==> s[j].1 >= s[lfu_victim_index(s)].1,
        forall|j: int| #![trigger s[j]] 0 <= j < lfu_victim_index(s) ==> s[j].1 > s[
            lfu_victim_index(s)
        ].1,
    decreases s.len(),
{
    if s.len() > 1 {
        lemma_lfu_victim_minimal(s.drop_last());
        let r = lfu_victim_index(s.drop_last());
        assert(forall|j: int| 0 <= j < s.len() - 1 ==> s[j] == s.drop_last()[j]);
        assert(s[s.len() - 1] == s.last());
    }
}

/// A Least-Frequently-Used eviction policy.
///
/// Its view is the sequence of tracked key/count pairs, ordered by recency
/// of access with the least recently accessed pair at index 0.
pub struct LFU<K> {
    /// Tracked keys with their access counts, least recently accessed first.
    entries: Vec<(K, u64)>,
}

impl<K> View for LFU<K> {
    type V = Seq<(K, u64)>;

    closed spec fn view(&self) -> Seq<(K, u64)> {
        self.entries@
    }
}

impl<K: PartialEq> LFU<K> {
    /// Bookkeeping is sound: each key appears once, every count is at least
    /// one, and `==` on `K` decides logical equality.
    pub closed spec fn wf(&self) -> bool {
        &&& lfu_keys_distinct(self.entries@)
        &&& forall|i: int| 0 <= i < self.entries@.len() ==> self.entries@[i].1 >= 1
        &&& eq_is_logical_eq::<K>()
    }

    /// Creates an empty LFU policy.
    pub fn new() -> (r: Self)
        requires
            eq_is_logical_eq::<K>(),
        ensures
            r.wf(),
            r@ == Seq::<(K, u64)>::empty(),
    {
        Self { entries: Vec::new() }
    }

    /// Finds the position of the pair carrying `key`, if any.
    fn position_of(&self, key: &K) -> (r: Option<usize>)
        requires
            self.wf(),
        ensures
            match r {
                Some(i) => i < self@.len() && self@[i as int].0 == *key && lfu_index_of(
                    self@,
                    *key,
                ) == i as int,
                None => !lfu_contains_key(self@, *key),
            },
    {
        let ghost s = self.entries@;
        let mut i: usize = 0;
        while i < self.entries.len()
            invariant
                self.wf(),
                s == self.entries@,
                i <= s.len(),
                forall|j: int| 0 <= j < i ==> s[j].0 != *key,
            decreases s.len() - i,
        {
            if self.entries[i].0 == *key {
                proof {
                    let w = lfu_index_of(s, *key);
                    assert(s[i as int].0 == *key);
                    assert(0 <= w < s.len() && s[w].0 == *key);
                    if w != i as int {
                        assert(false);
                    }
                }
                return Some(i);
            }
            i += 1;
        }
        None
    }

    /// Records one access to `key`: its pair moves to the most-recent end
    /// with its count raised; an untracked key is left alone.
    fn record_access(&mut self, key: &K)
        requires
            old(self).wf(),
        ensures
            final(self).wf(),
            final(self)@ == lfu_access(old(self)@, *key),
            lfu_key_set(final(self)@) == lfu_key_set(old(self)@),
    {
        let ghost s = self.entries@;
        match self.position_of(key) {
            Some(i) => {
                let (k, f) = self.entries.remove(i);
                let bumped: u64 = if f == u64::MAX {
                    f
                } else {
                    f + 1
                };
                proof {
                    lemma_pair_removal(s, self@, i as int);
                }
                let ghost mid = self.entries@;
                self.entries.push((k, bumped));
                proof {
                    lemma_pair_push(mid, self@, (k, bumped));
                    assert(self@ == lfu_access(s, *key));
                    assert(lfu_key_set(self@) =~= lfu_key_set(s));
                }
            },
            None => {},
        }
    }

    /// Drops `key` and its count; an untracked key is left alone.
    fn remove_key(&mut self, key: K)
        requires
            old(self).wf(),
        ensures
            final(self).wf(),
            final(self)@ == lfu_remove(old(self)@, key),
            lfu_key_set(final(self)@) == lfu_key_set(old(self)@).remove(key),
    {
        let ghost s = self.entries@;
        match self.position_of(&key) {
            Some(i) => {
                self.entries.remove(i);
                proof {
                    lemma_pair_removal(s, self@, i as int);
                    assert(lfu_key_set(self@) =~= lfu_key_set(s).remove(key));
                }
            },
            None => {
                proof {
                    assert(lfu_key_set(self@) =~= lfu_key_set(s).remove(key));
                }
            },
        }
    }

    /// Removes and returns a least frequently used key: the one whose count
    /// is smallest, and among ties the one least recently accessed. Returns
    /// `None` when nothing is tracked.
    fn remove_lfu_key(&mut self) -> (victim: Option<K>)
        requires
            old(self).wf(),
        ensures
            final(self).wf(),
            old(self)@.len() == 0 ==> victim is None && final(self)@ == old(self)@,
            old(self)@.len() > 0 ==> {
                let vi = lfu_victim_index(old(self)@);
                &&& victim == Some(old(self)@[vi].0)
                &&& final(self)@ == old(self)@.remove(vi)
                &&& lfu_key_set(final(self)@) == lfu_key_set(old(self)@).remove(old(self)@[vi].0)
            },
    {
        let ghost s = self.entries@;
        if self.entries.len() == 0 {
            return None;
        }
        let mut best: usize = 0;
        let mut i: usize = 1;
        while i < self.entries.len()
            invariant
                self.wf(),
                s == self.entries@,
                1 <= i <= s.len(),
                best < i,
                best as int == lfu_victim_index(s.subrange(0, i as int)),
            decreases s.len() - i,
        {
            proof {
                assert(s.subrange(0, i as int + 1).drop_last() =~= s.subrange(0, i as int));
                assert(s.subrange(0, i as int + 1).last() == s[i as int]);
            }
            if self.entries[i].1 < self.entries[best].1 {
                best = i;
            }
            i += 1;
        }
        proof {
            assert(s.subrange(0, s.len() as int) =~= s);
            lemma_lfu_victim_minimal(s);
        }
        let (k, _f) = self.entries.remove(best);
        proof {
            lemma_pair_removal(s, self@, best as int);
            assert(lfu_key_set(self@) =~= lfu_key_set(s).remove(k));
        }
        Some(k)
    }
}

/// Removing one pair of a key-distinct sequence keeps the keys distinct and
/// removes exactly that pair's key from the key set.
proof fn lemma_pair_removal<K>(s: Seq<(K, u64)>, t: Seq<(K, u64)>, i: int)
    requires
        lfu_keys_distinct(s),
        0 <= i < s.len(),
        t == s.remove(i),
    ensures
        lfu_keys_distinct(t),
        !lfu_contains_key(t, s[i].0),
        lfu_key_set(t) == lfu_key_set(s).remove(s[i].0),
        forall|j: int| 0 <= j < t.len() ==> #[trigger] t[j] == (if j < i {
            s[j]
        } else {
            s[j + 1]
        }),
{
    assert forall|x: K| lfu_contains_key(t, x) implies lfu_key_set(s).remove(s[i].0).contains(
        x,
    ) by {
        let j = choose|j: int| 0 <= j < t.len() && t[j].0 == x;
        if j < i {
            assert(s[j].0 == x);
        } else {
            assert(s[j + 1].0 == x);
        }
    }
    assert forall|x: K| lfu_key_set(s).remove(s[i].0).contains(x) implies lfu_contains_key(
        t,
        x,
    ) by {
        let j = choose|j: int| 0 <= j < s.len() && s[j].0 == x;
        if j < i {
            assert(t[j].0 == x);
        } else {
            assert(t[j - 1].0 == x);
        }
    }
    assert(lfu_key_set(t) =~= lfu_key_set(s).remove(s[i].0));
}

/// Pushing a pair whose key is absent keeps the keys distinct and adds
/// exactly that key to the key set.
proof fn lemma_pair_push<K>(s: Seq<(K, u64)>, t: Seq<(K, u64)>, p: (K, u64))
    requires
        lfu_keys_distinct(s),
        !lfu_contains_key(s, p.0),
        t == s.push(p),
    ensures
        lfu_keys_distinct(t),
        lfu_key_set(t) == lfu_key_set(s).insert(p.0),
{
    assert forall|x: K| lfu_contains_key(t, x) implies lfu_key_set(s).insert(p.0).contains(x) by {
        let j = choose|j: int| 0 <= j < t.len() && t[j].0 == x;
        if j < s.len() {
            assert(s[j].0 == x);
        }
    }
    assert forall|x: K| lfu_key_set(s).insert(p.0).contains(x) implies lfu_contains_key(t, x) by {
        if x == p.0 {
            assert(t[t.len() - 1].0 == x);
        } else {
            let j = choose|j: int| 0 <= j < s.len() && s[j].0 == x;
            assert(t[j].0 == x);
        }
    }
    assert(lfu_key_set(t) =~= lfu_key_set(s).insert(p.0));
}

/// The key/count pairs an initially empty LFU policy reaches after a
/// sequence of events, by the transitions its operations ensure: a read or
/// a write of a tracked key raises its count and refreshes its recency, a
/// write of a new key starts it at count one, a removal drops it, and an
/// eviction removes the pair the LFU rule picks.
pub open spec fn lfu_run<K>(events: Seq<PolicyEvent<K>>) -> Seq<(K, u64)>
    decreases events.len(),
{
    if events.len() == 0 {
        Seq::empty()
    } else {
        let s = lfu_run(events.drop_last());
        match events.last() {
            PolicyEvent::Get(k) => lfu_access(s, k),
            PolicyEvent::Put(k) => lfu_on_set(s, k),
            PolicyEvent::Remove(k) => lfu_remove(s, k),
            PolicyEvent::Evict => if s.len() > 0 {
                s.remove(lfu_victim_index(s))
            } else {
                s
            },
        }
    }
}

/// The pairs hold each key once, every tracked key was accessed during the
/// events, and the pairs stand ordered by their key's most recent access,
/// oldest first.
pub open spec fn lfu_pairs_order_accesses<K>(
    events: Seq<PolicyEvent<K>>,
    s: Seq<(K, u64)>,
) -> bool {
    &&& lfu_keys_distinct(s)
    &&& forall|i: int| #![trigger s[i]]
        0 <= i < s.len() ==> 0 <= last_access(events, s[i].0) < events.len()
    &&& forall|i: int, j: int| #![trigger s[i], s[j]]
        0 <= i < j < s.len() ==> last_access(events, s[i].0) < last_access(events, s[j].0)
}

/// The LFU pairs reached by any event sequence are ordered by their key's
/// most recent access, oldest first.
pub proof fn lemma_lfu_run_orders_accesses<K>(events: Seq<PolicyEvent<K>>)
    ensures
        lfu_pairs_order_accesses(events, lfu_run(events)),
    decreases events.len(),
{
    if events.len() > 0 {
        let prev = events.drop_last();
        let s = lfu_run(prev);
        lemma_lfu_run_orders_accesses(prev);
        assert forall|x: K| !accesses(events.last(), x) implies last_access(events, x)
            == last_access(prev, x) by {}
        match events.last() {
            PolicyEvent::Get(k) => {
                lemma_pair_repush_orders_accesses(events, prev, s, lfu_access(s, k), k);
            },
            PolicyEvent::Put(k) => {
                lemma_pair_repush_orders_accesses(events, prev, s, lfu_on_set(s, k), k);
            },
            PolicyEvent::Remove(k) => {
                if lfu_contains_key(s, k) {
                    let m = lfu_index_of(s, k);
                    assert(0 <= m < s.len() && s[m].0 == k);
                    lemma_pair_drop_orders_accesses(events, prev, s, s.remove(m), m);
                } else {
                    lemma_pair_frame_orders_accesses(events, prev, s);
                }
            },
            PolicyEvent::Evict => {
                if s.len() > 0 {
                    lemma_lfu_victim_minimal(s);
                    lemma_pair_drop_orders_accesses(
                        events,
                        prev,
                        s,
                        s.remove(lfu_victim_index(s)),
                        lfu_victim_index(s),
                    );
                } else {
                    lemma_pair_frame_orders_accesses(events, prev, s);
                }
            },
        }
    }
}

/// An event that accesses nothing leaves every key's most recent access
/// where it was.
proof fn lemma_pair_frame_orders_accesses<K>(
    events: Seq<PolicyEvent<K>>,
    prev: Seq<PolicyEvent<K>>,
    s: Seq<(K, u64)>,
)
    requires
        events.len() > 0,
        prev == events.drop_last(),
        forall|x: K| !(#[trigger] accesses(events.last(), x)),
        lfu_pairs_order_accesses(prev, s),
    ensures
        lfu_pairs_order_accesses(events, s),
{
    assert forall|i: int| #![trigger s[i]]
        0 <= i < s.len() implies 0 <= last_access(events, s[i].0) < events.len() by {
        assert(!accesses(events.last(), s[i].0));
    }
    assert forall|i: int, j: int| #![trigger s[i], s[j]]
        0 <= i < j < s.len() implies last_access(events, s[i].0) < last_access(
        events,
        s[j].0,
    ) by {
        assert(!accesses(events.last(), s[i].0) && !accesses(events.last(), s[j].0));
    }
}

/// Dropping one pair under an event that accesses nothing keeps the
/// remaining pairs ordered by most recent access.
proof fn lemma_pair_drop_orders_accesses<K>(
    events: Seq<PolicyEvent<K>>,
    prev: Seq<PolicyEvent<K>>,
    s: Seq<(K, u64)>,
    t: Seq<(K, u64)>,
    m: int,
)
    requires
        events.len() > 0,
        prev == events.drop_last(),
        forall|x: K| !(#[trigger] accesses(events.last(), x)),
        lfu_pairs_order_accesses(prev, s),
        0 <= m < s.len(),
        t == s.remove(m),
    ensures
        lfu_pairs_order_accesses(events, t),
{
    lemma_pair_removal(s, t, m);
    assert forall|i: int| #![trigger t[i]]
        0 <= i < t.len() implies 0 <= last_access(events, t[i].0) < events.len() by {
        let i0 = if i < m {
            i
        } else {
            i + 1
        };
        assert(t[i] == s[i0]);
        assert(!accesses(events.last(), t[i].0));
    }
    assert forall|i: int, j: int| #![trigger t[i], t[j]]
        0 <= i < j < t.len() implies last_access(events, t[i].0) < last_access(
        events,
        t[j].0,
    ) by {
        let i0 = if i < m {
            i
        } else {
            i + 1
        };
        let j0 = if j < m {
            j
        } else {
            j + 1
        };
        assert(t[i] == s[i0] && t[j] == s[j0] && i0 < j0);
        assert(!accesses(events.last(), t[i].0) && !accesses(events.last(), t[j].0));
    }
}

/// Accessing `k` with the newest event moves its pair to the most-recent
/// end — or starts a fresh pair there — and leaves the other pairs ordered
/// as before, so the whole sequence stays ordered by most recent access.
proof fn lemma_pair_repush_orders_accesses<K>(
    events: Seq<PolicyEvent<K>>,
    prev: Seq<PolicyEvent<K>>,
    s: Seq<(K, u64)>,
    t: Seq<(K, u64)>,
    k: K,
)
    requires
        events.len() > 0,
        prev == events.drop_last(),
        accesses(events.last(), k),
        forall|x: K| #[trigger] accesses(events.last(), x) ==> x == k,
        lfu_pairs_order_accesses(prev, s),
        ({
            if lfu_contains_key(s, k) {
                exists|f: u64| t == s.remove(lfu_index_of(s, k)).push((s[lfu_index_of(s, k)].0, f))
            } else {
                t == s || exists|f: u64| t == s.push((k, f))
            }
        }),
    ensures
        lfu_pairs_order_accesses(events, t),
{
    if lfu_contains_key(s, k) {
        let m = lfu_index_of(s, k);
        assert(0 <= m < s.len() && s[m].0 == k);
        let u = s.remove(m);
        lemma_pair_removal(s, u, m);
        let f = choose|f: u64| t == u.push((s[m].0, f));
        assert(t == u.push((s[m].0, f)));
        lemma_pair_push(u, t, (s[m].0, f));
        assert(last_access(events, k) == events.len() - 1);
        assert forall|i: int| #![trigger u[i]]
            0 <= i < u.len() implies u[i].0 != k && 0 <= last_access(events, u[i].0)
            < events.len() - 1 by {
            let i0 = if i < m {
                i
            } else {
                i + 1
            };
            assert(u[i] == s[i0]);
            assert(!accesses(events.last(), u[i].0));
        }
        assert forall|i: int, j: int| #![trigger t[i], t[j]]
            0 <= i < j < t.len() implies last_access(events, t[i].0) < last_access(
            events,
            t[j].0,
        ) by {
            if j < u.len() {
                let i0 = if i < m {
                    i
                } else {
                    i + 1
                };
                let j0 = if j < m {
                    j
                } else {
                    j + 1
                };
                assert(t[i] == s[i0] && t[j] == s[j0] && i0 < j0);
                assert(!accesses(events.last(), t[i].0) && !accesses(events.last(), t[j].0));
            } else {
                assert(t[j] == (s[m].0, f) && t[j].0 == k);
                assert(t[i] == u[i]);
            }
        }
        assert forall|i: int| #![trigger t[i]]
            0 <= i < t.len() implies 0 <= last_access(events, t[i].0) < events.len() by {
            if i < u.len() {
                assert(t[i] == u[i]);
            } else {
                assert(t[i] == (s[m].0, f) && t[i].0 == k);
            }
        }
    } else {
        if t == s {
            lemma_pair_frame_orders_accesses_weak(events, prev, s, k);
        } else {
            let f = choose|f: u64| t == s.push((k, f));
            assert(t == s.push((k, f)));
            lemma_pair_push(s, t, (k, f));
            assert(last_access(events, k) == events.len() - 1);
            assert forall|i: int| #![trigger s[i]]
                0 <= i < s.len() implies s[i].0 != k && 0 <= last_access(events, s[i].0)
                < events.len() - 1 by {
                assert(!accesses(events.last(), s[i].0));
            }
            assert forall|i: int, j: int| #![trigger t[i], t[j]]
                0 <= i < j < t.len() implies last_access(events, t[i].0) < last_access(
                events,
                t[j].0,
            ) by {
                if j < s.len() {
                    assert(t[i] == s[i] && t[j] == s[j]);
                } else {
                    assert(t[j] == (k, f));
                    assert(t[i] == s[i]);
                }
            }
            assert forall|i: int| #![trigger t[i]]
                0 <= i < t.len() implies 0 <= last_access(events, t[i].0) < events.len() by {
                if i < s.len() {
                    assert(t[i] == s[i]);
                } else {
                    assert(t[i] == (k, f));
                }
            }
        }
    }
}

/// An event accessing only an untracked key leaves the tracked pairs
/// ordered as before.
proof fn lemma_pair_frame_orders_accesses_weak<K>(
    events: Seq<PolicyEvent<K>>,
    prev: Seq<PolicyEvent<K>>,
    s: Seq<(K, u64)>,
    k: K,
)
    requires
        events.len() > 0,
        prev == events.drop_last(),
        forall|x: K| #[trigger] accesses(events.last(), x) ==> x == k,
        !lfu_contains_key(s, k),
        lfu_pairs_order_accesses(prev, s),
    ensures
        lfu_pairs_order_accesses(events, s),
{
    assert forall|i: int| #![trigger s[i]]
        0 <= i < s.len() implies 0 <= last_access(events, s[i].0) < events.len() by {
        assert(s[i].0 != k);
        assert(!accesses(events.last(), s[i].0));
    }
    assert forall|i: int, j: int| #![trigger s[i], s[j]]
        0 <= i < j < s.len() implies last_access(events, s[i].0) < last_access(
        events,
        s[j].0,
    ) by {
        assert(!accesses(events.last(), s[i].0) && !accesses(events.last(), s[j].0));
    }
}

/// LFU evicts the least frequently used key, breaking ties towards the key
/// accessed least recently: after any sequence of events on an initially
/// empty LFU policy, the victim carries a count no other tracked key
/// undercuts, and any other tracked key tied with it on the count was read
/// or written more recently than the victim.
pub proof fn lemma_lfu_evicts_least_frequent_then_oldest<K>(events: Seq<PolicyEvent<K>>)
    requires
        lfu_run(events).len() > 0,
    ensures
        ({
            let s = lfu_run(events);
            let vi = lfu_victim_index(s);
            &&& 0 <= vi < s.len()
            &&& forall|j: int| #![trigger s[j]] 0 <= j < s.len() ==> s[j].1 >= s[vi].1
            &&& forall|j: int| #![trigger s[j]]
                0 <= j < s.len() && j != vi && s[j].1 == s[vi].1 ==> last_access(events, s[vi].0)
                    < last_access(events, s[j].0)
        }),
{
    let s = lfu_run(events);
    let vi = lfu_victim_index(s);
    lemma_lfu_victim_minimal(s);
    lemma_lfu_run_orders_accesses(events);
    assert forall|j: int| #![trigger s[j]]
        0 <= j < s.len() && j != vi && s[j].1 == s[vi].1 implies last_access(events, s[vi].0)
        < last_access(events, s[j].0) by {
        if j < vi {
            assert(s[j].1 > s[vi].1);
        }
    }
}

impl<K: PartialEq> EvictionPolicy<K> for LFU<K> {
    open spec fn inv(&self) -> bool {
        self.wf()
    }

    open spec fn constrains(&self) -> bool {
        true
    }

    open spec fn membership(&self) -> Set<K> {
        lfu_key_set(self@)
    }

    /// A read raises the key's access count and refreshes its recency.
    fn on_get(&mut self, key: &K)
        ensures
            final(self)@ == lfu_access(old(self)@, *key),
    {
        self.record_access(key);
    }

    /// A write starts a new key at count 1, or counts one more access to an
    /// already-tracked key.
    fn on_set(&mut self, key: K)
        ensures
            final(self)@ == lfu_on_set(old(self)@, key),
    {
        let ghost s = self.entries@;
        match self.position_of(&key) {
            Some(_) => {
                self.record_access(&key);
                proof {
                    assert(lfu_key_set(self@) =~= lfu_key_set(s).insert(key));
                }
            },
            None => {
                self.entries.push((key, 1));
                proof {
                    lemma_pair_push(s, self@, (key, 1u64));
                }
            },
        }
    }

    /// Removes and returns the key dictated by the LFU rule, or `None` when
    /// nothing is tracked.
    fn evict(&mut self) -> (victim: Option<K>)
        ensures
            old(self)@.len() == 0 ==> victim is None && final(self)@ == old(self)@,
            old(self)@.len() > 0 ==> {
                let vi = lfu_victim_index(old(self)@);
                &&& victim == Some(old(self)@[vi].0)
                &&& final(self)@ == old(self)@.remove(vi)
            },
    {
        let ghost s = self.entries@;
        let victim = self.remove_lfu_key();
        proof {
            if s.len() > 0 {
                lemma_lfu_victim_minimal(s);
                let vi = lfu_victim_index(s);
                assert(lfu_contains_key(s, s[vi].0));
            }
        }
        victim
    }

    /// Drops `key` from the tracked pairs; an untracked key is tolerated.
    fn remove(&mut self, key: K)
        ensures
            final(self)@ == lfu_remove(old(self)@, key),
    {
        self.remove_key(key);
    }
}

} // verus!
