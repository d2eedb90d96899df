//! Mathematical model of the LRU-2 policy.
//!
//! The state of the store is abstracted as two sequences of keys, head at
//! index 0 and tail at the end: the FIFO-evicted history queue and the
//! LRU-evicted cache queue. `access` gives the pair of sequences that one
//! access of a key produces; `access_all` folds it over a whole input.

use vstd::prelude::*;

verus! {

/// The two queues are well formed for the given capacities: no key occurs
/// twice in a queue, no key is in both queues, and neither queue exceeds
/// its capacity.
pub open spec fn queues_ok(hist: Seq<i64>, cach: Seq<i64>, hcap: usize, ccap: usize) -> bool {
    &&& hist.no_duplicates()
    &&& cach.no_duplicates()
    &&& forall|k: i64| #[trigger] hist.contains(k) ==> !cach.contains(k)
    &&& hist.len() <= hcap
    &&& cach.len() <= ccap
}

/// One access of key `k`, head at index 0.
///
/// A key already in the cache queue is moved to its tail. A key in the
/// history queue is promoted: it leaves history, and enters the cache tail
/// after the cache head is evicted if the cache is full. A new key enters
/// the history tail after the history head is evicted if history is full.
/// A queue of capacity zero retains nothing.
pub open spec fn access(
    hist: Seq<i64>,
    cach: Seq<i64>,
    hcap: usize,
    ccap: usize,
    k: i64,
) -> (Seq<i64>, Seq<i64>) {
    if cach.contains(k) {
        (hist, cach.remove(cach.index_of(k)).push(k))
    } else if hist.contains(k) {
        let shrunk = hist.remove(hist.index_of(k));
        if ccap == 0 {
            (shrunk, cach)
        } else if cach.len() == ccap {
            (shrunk, cach.drop_first().push(k))
        } else {
            (shrunk, cach.push(k))
        }
    } else {
        if hcap == 0 {
            (hist, cach)
        } else if hist.len() == hcap {
            (hist.drop_first().push(k), cach)
        } else {
            (hist.push(k), cach)
        }
    }
}

/// The queues after accessing every key of `ks` in order, starting from
/// `hist` and `cach`.
pub open spec fn access_all(
    hist: Seq<i64>,
    cach: Seq<i64>,
    hcap: usize,
    ccap: usize,
    ks: Seq<i64>,
) -> (Seq<i64>, Seq<i64>)
    decreases ks.len(),
{
    if ks.len() == 0 {
        (hist, cach)
    } else {
        let stepped = access(hist, cach, hcap, ccap, ks[0]);
        access_all(stepped.0, stepped.1, hcap, ccap, ks.drop_first())
    }
}

/// Removing position `i` from a duplicate-free sequence keeps it
/// duplicate-free, drops exactly the key that stood at `i`, and shifts the
/// later keys one place toward the head.
pub proof fn lemma_remove_keeps(s: Seq<i64>, i: int)
    requires
        0 <= i < s.len(),
        s.no_duplicates(),
    ensures
        s.remove(i).no_duplicates(),
        s.remove(i).len() == s.len() - 1,
        forall|q: int| 0 <= q < i ==> #[trigger] s.remove(i)[q] == s[q],
        forall|q: int| i <= q < s.len() - 1 ==> #[trigger] s.remove(i)[q] == s[q + 1],
        forall|k: i64| #[trigger] s.remove(i).contains(k) <==> (s.contains(k) && k != s[i]),
{
    s.remove_ensures(i);
    assert forall|k: i64| #[trigger] s.remove(i).contains(k) implies (s.contains(k) && k != s[i]) by {
        let q = choose|q: int| 0 <= q < s.remove(i).len() && s.remove(i)[q] == k;
        if q < i {
            assert(s[q] == k);
        } else {
            assert(s[q + 1] == k);
        }
    }
    assert forall|k: i64| s.contains(k) && k != s[i] implies #[trigger] s.remove(i).contains(k) by {
        let j = choose|j: int| 0 <= j < s.len() && s[j] == k;
        if j < i {
            assert(s.remove(i)[j] == k);
        } else {
            assert(s.remove(i)[j - 1] == k);
        }
    }
}

/// Appending a fresh key to a duplicate-free sequence keeps it
/// duplicate-free and adds exactly that key.
pub proof fn lemma_push_keeps(s: Seq<i64>, k: i64)
    requires
        s.no_duplicates(),
        !s.contains(k),
    ensures
        s.push(k).no_duplicates(),
        forall|x: i64| #[trigger] s.push(k).contains(x) <==> (s.contains(x) || x == k),
{
    assert forall|x: i64| #[trigger] s.push(k).contains(x) implies (s.contains(x) || x == k) by {
        let q = choose|q: int| 0 <= q < s.push(k).len() && s.push(k)[q] == x;
        if q < s.len() {
            assert(s[q] == x);
        }
    }
    assert forall|x: i64| s.contains(x) || x == k implies #[trigger] s.push(k).contains(x) by {
        if x == k {
            assert(s.push(k)[s.len() as int] == x);
        } else {
            let j = choose|j: int| 0 <= j < s.len() && s[j] == x;
            assert(s.push(k)[j] == x);
        }
    }
}

/// Membership in a tail `s.skip(n)`: no key from the dropped prefix of a
/// duplicate-free sequence remains in the tail, and every key of the tail
/// is a key of the whole sequence.
pub proof fn lemma_skip_membership(s: Seq<i64>, n: int)
    requires
        0 <= n <= s.len(),
        s.no_duplicates(),
    ensures
        forall|j: int| 0 <= j < n ==> !s.skip(n).contains(#[trigger] s[j]),
        forall|k: i64| #[trigger] s.skip(n).contains(k) ==> s.contains(k),
{
    assert forall|j: int| 0 <= j < n implies !s.skip(n).contains(s[j]) by {
        if s.skip(n).contains(s[j]) {
            let q = choose|q: int| 0 <= q < s.skip(n).len() && s.skip(n)[q] == s[j];
            assert(s[q + n] == s[j]);
        }
    }
    assert forall|k: i64| #[trigger] s.skip(n).contains(k) implies s.contains(k) by {
        let q = choose|q: int| 0 <= q < s.skip(n).len() && s.skip(n)[q] == k;
        assert(s[q + n] == k);
    }
}

} // verus!
