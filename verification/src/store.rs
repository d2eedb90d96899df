//! The dual-queue store and its position index.
//!
//! `Lru2Cache` owns the bounded history (FIFO) and cache (LRU) queues and a
//! hash map from each tracked key to its current slot: `(h, ABSENT)` for a
//! key at position `h` of the history queue, `(ABSENT, c)` for a key at
//! position `c` of the cache queue. Every mutation repairs the index, so a
//! key's residency is always answered by one map lookup.

use std::collections::HashMap;
use vstd::prelude::*;

use crate::model::{
    access, lemma_push_keeps, lemma_remove_keeps, lemma_skip_membership, queues_ok,
};

verus! {

broadcast use vstd::std_specs::hash::group_hash_axioms;

/// Sentinel slot value meaning "absent from that queue". A live position
/// is always strictly below a queue's length, and a queue's length fits in
/// `usize`, so no live position collides with it.
pub const ABSENT: usize = usize::MAX;

/// Rewrites the index entry of every key at position `start` or later of
/// the cache queue to `(ABSENT, its current slot)`. Entries of keys not in
/// that range are left as they were, and no key enters or leaves the index.
fn renumber_cache_from(map: &mut HashMap<i64, (usize, usize)>, cache: &Vec<i64>, start: usize)
    requires
        start <= cache@.len(),
        cache@.no_duplicates(),
        forall|q: int| start <= q < cache@.len() ==> old(map)@.contains_key(#[trigger] cache@[q]),
    ensures
        forall|k: i64| #[trigger] final(map)@.contains_key(k) <==> old(map)@.contains_key(k),
        forall|q: int|
            start <= q < cache@.len() ==> final(map)@[#[trigger] cache@[q]] == (ABSENT, q as usize),
        forall|k: i64|
            old(map)@.contains_key(k) && !cache@.skip(start as int).contains(k) ==> final(map)@[k]
                == old(map)@[k],
{
    let mut p: usize = start;
    while p < cache.len()
        invariant
            start <= p <= cache@.len(),
            cache@.no_duplicates(),
            forall|q: int|
                start <= q < cache@.len() ==> old(map)@.contains_key(#[trigger] cache@[q]),
            forall|k: i64| #[trigger] map@.contains_key(k) <==> old(map)@.contains_key(k),
            forall|q: int| start <= q < p ==> map@[#[trigger] cache@[q]] == (ABSENT, q as usize),
            forall|k: i64|
                old(map)@.contains_key(k) && !cache@.subrange(start as int, p as int).contains(k)
                    ==> map@[k] == old(map)@[k],
        decreases cache@.len() - p,
    {
        let e = cache[p];
        map.insert(e, (ABSENT, p));
        p = p + 1;
        proof {
            let s = cache@.subrange(start as int, p as int);
            let t = cache@.subrange(start as int, p as int - 1);
            assert(s[p - 1 - start] == e);
            assert forall|k: i64| t.contains(k) implies s.contains(k) by {
                let q = choose|q: int| 0 <= q < t.len() && t[q] == k;
                assert(s[q] == k);
            }
        }
    }
    proof {
        assert(cache@.subrange(start as int, cache@.len() as int) == cache@.skip(start as int));
    }
}

/// Rewrites the index entry of every key at position `start` or later of
/// the history queue to `(its current slot, ABSENT)`. Entries of keys not
/// in that range are left as they were, and no key enters or leaves the
/// index.
fn renumber_history_from(map: &mut HashMap<i64, (usize, usize)>, history: &Vec<i64>, start: usize)
    requires
        start <= history@.len(),
        history@.no_duplicates(),
        forall|q: int|
            start <= q < history@.len() ==> old(map)@.contains_key(#[trigger] history@[q]),
    ensures
        forall|k: i64| #[trigger] final(map)@.contains_key(k) <==> old(map)@.contains_key(k),
        forall|q: int|
            start <= q < history@.len() ==> final(map)@[#[trigger] history@[q]] == (
                q as usize,
                ABSENT,
            ),
        forall|k: i64|
            old(map)@.contains_key(k) && !history@.skip(start as int).contains(k) ==> final(map)@[k]
                == old(map)@[k],
{
    let mut p: usize = start;
    while p < history.len()
        invariant
            start <= p <= history@.len(),
            history@.no_duplicates(),
            forall|q: int|
                start <= q < history@.len() ==> old(map)@.contains_key(#[trigger] history@[q]),
            forall|k: i64| #[trigger] map@.contains_key(k) <==> old(map)@.contains_key(k),
            forall|q: int| start <= q < p ==> map@[#[trigger] history@[q]] == (q as usize, ABSENT),
            forall|k: i64|
                old(map)@.contains_key(k) && !history@.subrange(start as int, p as int).contains(k)
                    ==> map@[k] == old(map)@[k],
        decreases history@.len() - p,
    {
        let e = history[p];
        map.insert(e, (p, ABSENT));
        p = p + 1;
        proof {
            let s = history@.subrange(start as int, p as int);
            let t = history@.subrange(start as int, p as int - 1);
            assert(s[p - 1 - start] == e);
            assert forall|k: i64| t.contains(k) implies s.contains(k) by {
                let q = choose|q: int| 0 <= q < t.len() && t[q] == k;
                assert(s[q] == k);
            }
        }
    }
    proof {
        assert(history@.subrange(start as int, history@.len() as int) == history@.skip(
            start as int,
        ));
    }
}

/// An LRU-2 cache over machine-integer keys.
pub struct Lru2Cache {
    /// History queue, FIFO-evicted, head at index 0.
    pub history: Vec<i64>,
    /// Cache queue, LRU-evicted, head at index 0.
    pub cache: Vec<i64>,
    /// Capacity of the history queue.
    pub history_size: usize,
    /// Capacity of the cache queue.
    pub cache_size: usize,
    /// Position index: key to `(history_slot, cache_slot)`, one of them
    /// `ABSENT`.
    pub map: HashMap<i64, (usize, usize)>,
}

impl Lru2Cache {
    /// The store is well formed: the queues are duplicate-free, disjoint
    /// and within capacity, and the index holds exactly the keys of the two
    /// queues, each mapped to its live slot.
    pub open spec fn wf(self) -> bool {
        &&& queues_ok(self.history@, self.cache@, self.history_size, self.cache_size)
        &&& forall|i: int|
            0 <= i < self.history@.len() ==> {
                &&& self.map@.contains_key(#[trigger] self.history@[i])
                &&& self.map@[self.history@[i]] == (i as usize, ABSENT)
            }
        &&& forall|j: int|
            0 <= j < self.cache@.len() ==> {
                &&& self.map@.contains_key(#[trigger] self.cache@[j])
                &&& self.map@[self.cache@[j]] == (ABSENT, j as usize)
            }
        &&& forall|k: i64| #[trigger]
            self.map@.contains_key(k) ==> self.history@.contains(k) || self.cache@.contains(k)
    }

    /// Creates an empty store with the two capacities. Either capacity may
    /// be zero: that queue then retains nothing.
    pub fn new(history_size: usize, cache_size: usize) -> (r: Self)
        ensures
            r.wf(),
            r.history@ == Seq::<i64>::empty(),
            r.cache@ == Seq::<i64>::empty(),
            r.history_size == history_size,
            r.cache_size == cache_size,
    {
        Lru2Cache {
            history: Vec::new(),
            cache: Vec::new(),
            history_size,
            cache_size,
            map: HashMap::new(),
        }
    }

    /// Accesses `value`: the single mutating operation of the policy.
    ///
    /// A key already in the cache queue is moved to the cache tail. A key
    /// in the history queue is promoted: it leaves history and is appended
    /// to the cache tail, after the cache head is evicted if the cache is
    /// full (a zero-capacity cache retains nothing). A key in neither
    /// queue is appended to the history tail, after the history head is
    /// evicted if history is full (a zero-capacity history retains
    /// nothing). The position index is repaired for every key whose slot
    /// shifted, so the store is well formed again when the call returns.
    pub fn insert(&mut self, value: i64)
        requires
            old(self).wf(),
        ensures
            final(self).wf(),
            final(self).history_size == old(self).history_size,
            final(self).cache_size == old(self).cache_size,
            final(self).history@ == access(
                old(self).history@,
                old(self).cache@,
                old(self).history_size,
                old(self).cache_size,
                value,
            ).0,
            final(self).cache@ == access(
                old(self).history@,
                old(self).cache@,
                old(self).history_size,
                old(self).cache_size,
                value,
            ).1,
    {
        let ghost hist0 = self.history@;
        let ghost cach0 = self.cache@;
        let ghost map0 = self.map@;
        let slot_pair: Option<(usize, usize)> = match self.map.get(&value) {
            Some(p) => Some(*p),
            None => None,
        };
        match slot_pair {
            Some((h, c)) => {
                proof {
                    assert(map0.contains_key(value) && map0[value] == (h, c));
                }
                if c != ABSENT {
                    // value sits in the cache queue at slot c: move it to the tail
                    proof {
                        if hist0.contains(value) {
                            let i = choose|i: int| 0 <= i < hist0.len() && hist0[i] == value;
                            assert(map0[value] == (i as usize, ABSENT));
                            assert(false);
                        }
                        let j = choose|j: int| 0 <= j < cach0.len() && cach0[j] == value;
                        assert(map0[value] == (ABSENT, j as usize));
                        assert(c == j as usize && cach0[c as int] == value);
                        lemma_remove_keeps(cach0, c as int);
                    }
                    self.cache.remove(c);
                    proof {
                        assert forall|q: int|
                            c <= q < self.cache@.len() implies self.map@.contains_key(
                            #[trigger] self.cache@[q],
                        ) by {
                            assert(self.cache@[q] == cach0[q + 1]);
                        }
                    }
                    renumber_cache_from(&mut self.map, &self.cache, c);
                    let ghost m1 = self.map@;
                    self.cache.push(value);
                    let n = self.cache.len();
                    self.map.insert(value, (ABSENT, n - 1));
                    proof {
                        let mid = cach0.remove(c as int);
                        let cach1 = self.cache@;
                        let m2 = self.map@;
                        assert(!mid.contains(value));
                        lemma_push_keeps(mid, value);
                        lemma_skip_membership(mid, c as int);
                        // the model takes the in-cache branch with index c
                        assert(cach0.contains(value));
                        let i0 = cach0.index_of(value);
                        assert(0 <= i0 < cach0.len() && cach0[i0] == value);
                        assert(i0 == c as int);
                        // queue shapes
                        assert(cach1.no_duplicates());
                        assert forall|k: i64| #[trigger]
                            hist0.contains(k) implies !cach1.contains(k) by {
                            assert(!cach0.contains(k));
                        }
                        // history entries are untouched
                        assert forall|i: int| 0 <= i < hist0.len() implies m2.contains_key(
                            #[trigger] hist0[i],
                        ) && m2[hist0[i]] == (i as usize, ABSENT) by {
                            assert(hist0.contains(hist0[i]));
                            assert(!cach0.contains(hist0[i]));
                            assert(!mid.contains(hist0[i]));
                            assert(!mid.skip(c as int).contains(hist0[i]));
                            assert(hist0[i] != value);
                            assert(m1[hist0[i]] == map0[hist0[i]]);
                        }
                        // cache entries match the new slots
                        assert forall|j: int| 0 <= j < cach1.len() implies m2.contains_key(
                            #[trigger] cach1[j],
                        ) && m2[cach1[j]] == (ABSENT, j as usize) by {
                            if j < c {
                                assert(cach1[j] == mid[j] && mid[j] == cach0[j]);
                                assert(!mid.skip(c as int).contains(mid[j]));
                                assert(cach0[j] != value);
                                assert(m1[mid[j]] == map0[mid[j]]);
                            } else if j < cach1.len() - 1 {
                                assert(cach1[j] == mid[j]);
                                assert(mid[j] != value);
                                assert(m1[mid[j]] == (ABSENT, j as usize));
                            } else {
                                assert(cach1[j] == value);
                            }
                        }
                        // every indexed key is still in one of the queues
                        assert forall|k: i64| #[trigger]
                            m2.contains_key(k) implies self.history@.contains(k)
                            || cach1.contains(k) by {
                            if k != value {
                                assert(map0.contains_key(k));
                                if cach0.contains(k) {
                                    assert(mid.contains(k) || k == cach0[c as int]);
                                }
                            }
                        }
                    }
                } else {
                    // value sits in the history queue at slot h: promote it
                    proof {
                        if cach0.contains(value) {
                            let j = choose|j: int| 0 <= j < cach0.len() && cach0[j] == value;
                            assert(map0[value] == (ABSENT, j as usize));
                            assert(j < cach0.len() <= self.cache_size);
                            assert(false);
                        }
                        assert(hist0.contains(value));
                        let i = choose|i: int| 0 <= i < hist0.len() && hist0[i] == value;
                        assert(map0[value] == (i as usize, ABSENT));
                        assert(h == i as usize && hist0[h as int] == value);
                        lemma_remove_keeps(hist0, h as int);
                        // the model takes the in-history branch with index h
                        let i0 = hist0.index_of(value);
                        assert(0 <= i0 < hist0.len() && hist0[i0] == value);
                        assert(i0 == h as int);
                    }
                    self.history.remove(h);
                    proof {
                        assert forall|q: int|
                            h <= q < self.history@.len() implies self.map@.contains_key(
                            #[trigger] self.history@[q],
                        ) by {
                            assert(self.history@[q] == hist0[q + 1]);
                        }
                    }
                    renumber_history_from(&mut self.map, &self.history, h);
                    let ghost hist1 = self.history@;
                    let ghost m1 = self.map@;
                    proof {
                        lemma_skip_membership(hist1, h as int);
                        // entries of keys outside the renumbered tail kept their old value
                        assert forall|k: i64|
                            map0.contains_key(k) && !hist1.contains(k) implies m1[k] == map0[k] by {
                            assert(!hist1.skip(h as int).contains(k));
                        }
                        assert forall|i: int| 0 <= i < hist1.len() implies m1.contains_key(
                            #[trigger] hist1[i],
                        ) && m1[hist1[i]] == (i as usize, ABSENT) by {}
                    }
                    if self.cache_size == 0 {
                        // a zero-capacity cache retains nothing: drop the key
                        self.map.remove(&value);
                        proof {
                            let m2 = self.map@;
                            assert(cach0.len() == 0);
                            assert forall|i: int| 0 <= i < hist1.len() implies m2.contains_key(
                                #[trigger] hist1[i],
                            ) && m2[hist1[i]] == (i as usize, ABSENT) by {
                                assert(hist1[i] != value);
                            }
                            assert forall|k: i64| #[trigger]
                                m2.contains_key(k) implies hist1.contains(k) || cach0.contains(
                                k,
                            ) by {
                                assert(map0.contains_key(k) && k != value);
                                assert(hist0.contains(k) || cach0.contains(k));
                            }
                        }
                    } else {
                        if self.cache.len() == self.cache_size {
                            // cache is full: evict its head and renumber the rest
                            proof {
                                lemma_remove_keeps(cach0, 0);
                            }
                            let evicted = self.cache.remove(0);
                            self.map.remove(&evicted);
                            proof {
                                assert forall|q: int|
                                    0 <= q < self.cache@.len() implies self.map@.contains_key(
                                    #[trigger] self.cache@[q],
                                ) by {
                                    assert(self.cache@[q] == cach0[q + 1]);
                                    assert(cach0.contains(cach0[q + 1]));
                                    assert(!hist1.contains(cach0[q + 1]));
                                    assert(cach0[q + 1] != cach0[0]);
                                }
                            }
                            renumber_cache_from(&mut self.map, &self.cache, 0);
                            proof {
                                let cmid = self.cache@;
                                let m3 = self.map@;
                                let m2 = m1.remove(evicted);
                                lemma_skip_membership(cmid, 0);
                                assert(cmid == cach0.remove(0));
                                // the pre-push facts, shared with the not-full branch
                                assert(cmid.no_duplicates());
                                assert(!cmid.contains(value));
                                assert(cmid.len() < self.cache_size);
                                assert forall|j: int| 0 <= j < cmid.len() implies m3.contains_key(
                                    #[trigger] cmid[j],
                                ) && m3[cmid[j]] == (ABSENT, j as usize) by {}
                                assert forall|i: int| 0 <= i < hist1.len() implies m3.contains_key(
                                    #[trigger] hist1[i],
                                ) && m3[hist1[i]] == (i as usize, ABSENT) by {
                                    assert(!cach0.contains(hist1[i]));
                                    assert(!cmid.contains(hist1[i]));
                                    assert(!cmid.skip(0).contains(hist1[i]));
                                    assert(hist1[i] != evicted);
                                    assert(m3[hist1[i]] == m2[hist1[i]]);
                                }
                                assert(m3.contains_key(value));
                                assert forall|k: i64| #[trigger]
                                    m3.contains_key(k) implies hist1.contains(k) || cmid.contains(k)
                                    || k == value by {
                                    assert(m1.contains_key(k) && k != evicted);
                                    assert(map0.contains_key(k));
                                    assert(hist0.contains(k) || cach0.contains(k));
                                    if hist0.contains(k) && k != value {
                                        assert(hist1.contains(k));
                                    }
                                }
                                assert(cmid == cach0.drop_first());
                            }
                        } else {
                            proof {
                                let cmid = self.cache@;
                                let m3 = self.map@;
                                assert(cmid == cach0);
                                assert(cmid.len() < self.cache_size);
                                assert(!cmid.contains(value));
                                assert forall|j: int| 0 <= j < cmid.len() implies m3.contains_key(
                                    #[trigger] cmid[j],
                                ) && m3[cmid[j]] == (ABSENT, j as usize) by {
                                    assert(cach0.contains(cach0[j]));
                                    assert(!hist1.contains(cach0[j]));
                                    assert(m3[cach0[j]] == map0[cach0[j]]);
                                }
                                assert forall|k: i64| #[trigger]
                                    m3.contains_key(k) implies hist1.contains(k) || cmid.contains(k)
                                    || k == value by {
                                    assert(map0.contains_key(k));
                                }
                            }
                        }
                        let ghost cmid = self.cache@;
                        let ghost m3 = self.map@;
                        self.cache.push(value);
                        let n = self.cache.len();
                        self.map.insert(value, (ABSENT, n - 1));
                        proof {
                            let cach1 = self.cache@;
                            let m4 = self.map@;
                            lemma_push_keeps(cmid, value);
                            assert(cach1 == cmid.push(value));
                            assert(cach1.no_duplicates());
                            assert forall|k: i64| #[trigger]
                                hist1.contains(k) implies !cach1.contains(k) by {
                                assert(hist0.contains(k));
                                assert(k != value || !hist1.contains(value));
                            }
                            assert forall|i: int| 0 <= i < hist1.len() implies m4.contains_key(
                                #[trigger] hist1[i],
                            ) && m4[hist1[i]] == (i as usize, ABSENT) by {
                                assert(hist1[i] != value);
                            }
                            assert forall|j: int| 0 <= j < cach1.len() implies m4.contains_key(
                                #[trigger] cach1[j],
                            ) && m4[cach1[j]] == (ABSENT, j as usize) by {
                                if j < cach1.len() - 1 {
                                    assert(cach1[j] == cmid[j]);
                                    assert(cmid[j] != value);
                                } else {
                                    assert(cach1[j] == value);
                                }
                            }
                            assert forall|k: i64| #[trigger]
                                m4.contains_key(k) implies hist1.contains(k) || cach1.contains(
                                k,
                            ) by {
                                if k != value {
                                    assert(m3.contains_key(k));
                                }
                            }
                        }
                    }
                }
            },
            None => {
                // value is in neither queue: record it in history
                proof {
                    assert(!map0.contains_key(value));
                    if hist0.contains(value) {
                        let i = choose|i: int| 0 <= i < hist0.len() && hist0[i] == value;
                        assert(map0.contains_key(hist0[i]));
                        assert(false);
                    }
                    if cach0.contains(value) {
                        let j = choose|j: int| 0 <= j < cach0.len() && cach0[j] == value;
                        assert(map0.contains_key(cach0[j]));
                        assert(false);
                    }
                }
                if self.history_size == 0 {
                    // a zero-capacity history retains nothing: do not track the key
                } else {
                    if self.history.len() == self.history_size {
                        // history is full: evict its head and renumber the rest
                        proof {
                            lemma_remove_keeps(hist0, 0);
                        }
                        let evicted = self.history.remove(0);
                        self.map.remove(&evicted);
                        proof {
                            assert forall|q: int|
                                0 <= q < self.history@.len() implies self.map@.contains_key(
                                #[trigger] self.history@[q],
                            ) by {
                                assert(self.history@[q] == hist0[q + 1]);
                                assert(hist0.contains(hist0[q + 1]));
                                assert(hist0[q + 1] != hist0[0]);
                            }
                        }
                        renumber_history_from(&mut self.map, &self.history, 0);
                        proof {
                            let hmid = self.history@;
                            let m3 = self.map@;
                            let m2 = map0.remove(evicted);
                            lemma_skip_membership(hmid, 0);
                            assert(hmid == hist0.remove(0));
                            assert(hmid.no_duplicates());
                            assert(hmid.len() < self.history_size);
                            assert(!hmid.contains(value));
                            assert forall|i: int| 0 <= i < hmid.len() implies m3.contains_key(
                                #[trigger] hmid[i],
                            ) && m3[hmid[i]] == (i as usize, ABSENT) by {}
                            assert forall|j: int| 0 <= j < cach0.len() implies m3.contains_key(
                                #[trigger] cach0[j],
                            ) && m3[cach0[j]] == (ABSENT, j as usize) by {
                                assert(cach0.contains(cach0[j]));
                                assert(!hist0.contains(cach0[j]));
                                assert(!hmid.contains(cach0[j]));
                                assert(!hmid.skip(0).contains(cach0[j]));
                                assert(cach0[j] != evicted);
                                assert(m3[cach0[j]] == m2[cach0[j]]);
                            }
                            assert forall|k: i64| #[trigger]
                                m3.contains_key(k) implies hmid.contains(k) || cach0.contains(
                                k,
                            ) by {
                                assert(map0.contains_key(k) && k != evicted);
                                assert(hist0.contains(k) || cach0.contains(k));
                            }
                            assert(hmid == hist0.drop_first());
                        }
                    } else {
                        proof {
                            assert(self.history@.len() < self.history_size);
                        }
                    }
                    let ghost hmid = self.history@;
                    let ghost m3 = self.map@;
                    self.history.push(value);
                    let n = self.history.len();
                    self.map.insert(value, (n - 1, ABSENT));
                    proof {
                        let hist1 = self.history@;
                        let m4 = self.map@;
                        lemma_push_keeps(hmid, value);
                        assert(hist1 == hmid.push(value));
                        assert(hist1.no_duplicates());
                        assert forall|k: i64| #[trigger]
                            hist1.contains(k) implies !cach0.contains(k) by {
                            assert(hmid.contains(k) || k == value);
                            if hmid.contains(k) {
                                assert(hist0.contains(k));
                            }
                        }
                        assert forall|i: int| 0 <= i < hist1.len() implies m4.contains_key(
                            #[trigger] hist1[i],
                        ) && m4[hist1[i]] == (i as usize, ABSENT) by {
                            if i < hist1.len() - 1 {
                                assert(hist1[i] == hmid[i]);
                                assert(hmid[i] != value);
                            } else {
                                assert(hist1[i] == value);
                            }
                        }
                        assert forall|j: int| 0 <= j < cach0.len() implies m4.contains_key(
                            #[trigger] cach0[j],
                        ) && m4[cach0[j]] == (ABSENT, j as usize) by {
                            assert(cach0[j] != value);
                        }
                        assert forall|k: i64| #[trigger]
                            m4.contains_key(k) implies hist1.contains(k) || cach0.contains(k) by {
                            if k != value {
                                assert(m3.contains_key(k));
                            }
                        }
                    }
                }
            },
        }
    }

    /// Snapshot of the history queue, head to tail.
    pub fn get_history_list(&self) -> (r: Vec<i64>)
        ensures
            r@ == self.history@,
    {
        let mut r: Vec<i64> = Vec::new();
        let mut i: usize = 0;
        while i < self.history.len()
            invariant
                i <= self.history@.len(),
                r@ == self.history@.take(i as int),
            decreases self.history@.len() - i,
        {
            r.push(self.history[i]);
            i = i + 1;
        }
        proof {
            assert(self.history@.take(self.history@.len() as int) =~= self.history@);
        }
        r
    }

    /// Snapshot of the cache queue, head to tail.
    pub fn get_cache_list(&self) -> (r: Vec<i64>)
        ensures
            r@ == self.cache@,
    {
        let mut r: Vec<i64> = Vec::new();
        let mut i: usize = 0;
        while i < self.cache.len()
            invariant
                i <= self.cache@.len(),
                r@ == self.cache@.take(i as int),
            decreases self.cache@.len() - i,
        {
            r.push(self.cache[i]);
            i = i + 1;
        }
        proof {
            assert(self.cache@.take(self.cache@.len() as int) =~= self.cache@);
        }
        r
    }
}

} // verus!
