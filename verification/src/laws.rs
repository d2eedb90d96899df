//! The stated laws of the policy, proved against the model and the store.

use vstd::prelude::*;

use crate::model::{
    access, access_all, lemma_push_keeps, lemma_remove_keeps, queues_ok,
};
use crate::store::Lru2Cache;

verus! {

/// Capacity bound: a well-formed store never holds more than
/// `history_size` keys in history nor more than `cache_size` keys in
/// cache; `insert` keeps the store well formed, so this holds after every
/// access.
pub proof fn lemma_capacity_bound(c: &Lru2Cache)
    requires
        c.wf(),
    ensures
        c.history@.len() <= c.history_size,
        c.cache@.len() <= c.cache_size,
{
}

/// The position index tracks exactly the keys of the two queues: its
/// domain is the union of the keys in history and in cache, and no key is
/// in both queues.
pub proof fn lemma_index_is_union(c: &Lru2Cache)
    requires
        c.wf(),
    ensures
        c.map@.dom() =~= c.history@.to_set().union(c.cache@.to_set()),
        forall|k: i64| !(#[trigger] c.history@.contains(k) && c.cache@.contains(k)),
{
    assert(queues_ok(c.history@, c.cache@, c.history_size, c.cache_size));
}

/// Promotion law: with a history capacity of at least one, two
/// consecutive accesses of a key `k` not yet tracked record it in history
/// and then move it out of history; with a cache capacity of at least one
/// the second access places it at the cache tail.
pub proof fn lemma_promotion(hist: Seq<i64>, cach: Seq<i64>, hcap: usize, ccap: usize, k: i64)
    requires
        queues_ok(hist, cach, hcap, ccap),
        hcap >= 1,
        !hist.contains(k),
        !cach.contains(k),
    ensures
        ({
            let first = access(hist, cach, hcap, ccap, k);
            let second = access(first.0, first.1, hcap, ccap, k);
            &&& first.0.contains(k)
            &&& !second.0.contains(k)
            &&& ccap >= 1 ==> second.1.len() >= 1 && second.1.last() == k
        }),
{
    let first = access(hist, cach, hcap, ccap, k);
    let h1 = first.0;
    if hist.len() == hcap {
        lemma_remove_keeps(hist, 0);
        assert(hist.drop_first() =~= hist.remove(0));
        lemma_push_keeps(hist.drop_first(), k);
    } else {
        lemma_push_keeps(hist, k);
    }
    assert(h1[h1.len() - 1] == k);
    assert(h1.contains(k));
    assert(h1.no_duplicates());
    assert(first.1 == cach);
    let i = h1.index_of(k);
    assert(0 <= i < h1.len() && h1[i] == k);
    lemma_remove_keeps(h1, i);
    if cach.len() == ccap && ccap >= 1 {
        lemma_remove_keeps(cach, 0);
        assert(cach.drop_first() =~= cach.remove(0));
    }
}

/// FIFO eviction from history: starting from an empty store, accessing
/// `hcap + 1` distinct new keys in order leaves exactly the first of them
/// evicted, the rest standing in history in arrival order, and the cache
/// untouched.
pub proof fn lemma_fifo_eviction(hcap: usize, ccap: usize, ks: Seq<i64>)
    requires
        ks.no_duplicates(),
        hcap >= 1,
        ks.len() == hcap + 1,
    ensures
        ({
            let full = access_all(Seq::<i64>::empty(), Seq::<i64>::empty(), hcap, ccap, ks);
            &&& full.0 == ks.drop_first()
            &&& full.1 == Seq::<i64>::empty()
            &&& !full.0.contains(ks[0])
        }),
{
    let pre = ks.take(hcap as int);
    let lastk = ks[hcap as int];
    assert(pre + seq![lastk] =~= ks);
    lemma_access_all_concat(
        Seq::<i64>::empty(),
        Seq::<i64>::empty(),
        hcap,
        ccap,
        pre,
        seq![lastk],
    );
    assert(pre.no_duplicates());
    assert forall|q: int| 0 <= q < pre.len() implies !Seq::<i64>::empty().contains(
        #[trigger] pre[q],
    ) by {}
    lemma_access_all_fresh(Seq::<i64>::empty(), hcap, ccap, pre);
    assert(Seq::<i64>::empty() + pre =~= pre);
    // one more access of the last key steps the full history once
    assert(!pre.contains(lastk)) by {
        if pre.contains(lastk) {
            let q = choose|q: int| 0 <= q < pre.len() && pre[q] == lastk;
            assert(ks[q] == ks[hcap as int]);
        }
    }
    let stepped = access(pre, Seq::<i64>::empty(), hcap, ccap, lastk);
    assert(seq![lastk].drop_first() =~= Seq::<i64>::empty());
    assert(access_all(stepped.0, stepped.1, hcap, ccap, seq![lastk].drop_first()) == stepped);
    assert(stepped.0 == pre.drop_first().push(lastk));
    assert(pre.drop_first().push(lastk) =~= ks.drop_first());
    assert(!ks.drop_first().contains(ks[0])) by {
        if ks.drop_first().contains(ks[0]) {
            let q = choose|q: int| 0 <= q < ks.drop_first().len() && ks.drop_first()[q] == ks[0];
            assert(ks[q + 1] == ks[0]);
        }
    }
}

/// LRU eviction from cache, kept side: re-accessing a key already in the
/// cache evicts nothing — history is untouched and the cache holds the
/// same keys as before, with the accessed key moved to the tail.
pub proof fn lemma_cache_reaccess_evicts_nothing(
    hist: Seq<i64>,
    cach: Seq<i64>,
    hcap: usize,
    ccap: usize,
    k: i64,
)
    requires
        queues_ok(hist, cach, hcap, ccap),
        cach.contains(k),
    ensures
        ({
            let stepped = access(hist, cach, hcap, ccap, k);
            &&& stepped.0 == hist
            &&& stepped.1.len() == cach.len()
            &&& stepped.1.last() == k
            &&& forall|x: i64| #[trigger] stepped.1.contains(x) <==> cach.contains(x)
        }),
{
    let i = cach.index_of(k);
    assert(0 <= i < cach.len() && cach[i] == k);
    lemma_remove_keeps(cach, i);
    lemma_push_keeps(cach.remove(i), k);
    assert(cach.remove(i).push(k).last() == k);
}

/// LRU eviction from cache, evicting side: promoting a key from history
/// into a full cache evicts exactly the cache head, the least recently
/// touched member, and appends the promoted key at the tail.
pub proof fn lemma_promotion_evicts_cache_head(
    hist: Seq<i64>,
    cach: Seq<i64>,
    hcap: usize,
    ccap: usize,
    k: i64,
)
    requires
        queues_ok(hist, cach, hcap, ccap),
        hist.contains(k),
        !cach.contains(k),
        cach.len() == ccap,
        ccap >= 1,
    ensures
        ({
            let stepped = access(hist, cach, hcap, ccap, k);
            &&& stepped.1 == cach.drop_first().push(k)
            &&& !stepped.1.contains(cach[0])
            &&& stepped.1.len() == ccap
            &&& stepped.1.last() == k
        }),
{
    lemma_remove_keeps(cach, 0);
    assert(cach.drop_first() =~= cach.remove(0));
    lemma_push_keeps(cach.drop_first(), k);
    assert(cach.drop_first().push(k).last() == k);
}

/// Idempotence of repeated cache access: accessing the key already at the
/// cache tail changes neither queue.
pub proof fn lemma_tail_reaccess_idempotent(
    hist: Seq<i64>,
    cach: Seq<i64>,
    hcap: usize,
    ccap: usize,
    k: i64,
)
    requires
        queues_ok(hist, cach, hcap, ccap),
        cach.len() >= 1,
        cach.last() == k,
    ensures
        access(hist, cach, hcap, ccap, k) == ((hist, cach)),
{
    assert(cach.contains(k)) by {
        assert(cach[cach.len() - 1] == k);
    }
    let i = cach.index_of(k);
    assert(0 <= i < cach.len() && cach[i] == k);
    assert(i == cach.len() - 1);
    lemma_remove_keeps(cach, i);
    assert(cach.remove(i).push(k) =~= cach);
}

/// Accessing a concatenation of inputs is accessing the first part, then
/// the second from the state the first part left.
proof fn lemma_access_all_concat(
    hist: Seq<i64>,
    cach: Seq<i64>,
    hcap: usize,
    ccap: usize,
    ks1: Seq<i64>,
    ks2: Seq<i64>,
)
    ensures
        access_all(hist, cach, hcap, ccap, ks1 + ks2) == ({
            let mid = access_all(hist, cach, hcap, ccap, ks1);
            access_all(mid.0, mid.1, hcap, ccap, ks2)
        }),
    decreases ks1.len(),
{
    if ks1.len() == 0 {
        assert(ks1 + ks2 =~= ks2);
    } else {
        let stepped = access(hist, cach, hcap, ccap, ks1[0]);
        assert((ks1 + ks2)[0] == ks1[0]);
        assert((ks1 + ks2).drop_first() =~= ks1.drop_first() + ks2);
        lemma_access_all_concat(stepped.0, stepped.1, hcap, ccap, ks1.drop_first(), ks2);
    }
}

/// Distinct keys never seen before, few enough to fit, fill history in
/// arrival order and leave an empty cache empty.
proof fn lemma_access_all_fresh(hist: Seq<i64>, hcap: usize, ccap: usize, ks: Seq<i64>)
    requires
        hist.no_duplicates(),
        ks.no_duplicates(),
        forall|q: int| 0 <= q < ks.len() ==> !hist.contains(#[trigger] ks[q]),
        hist.len() + ks.len() <= hcap,
    ensures
        access_all(hist, Seq::<i64>::empty(), hcap, ccap, ks) == ((
            hist + ks,
            Seq::<i64>::empty(),
        )),
    decreases ks.len(),
{
    if ks.len() == 0 {
        assert(hist + ks =~= hist);
    } else {
        let k = ks[0];
        assert(!Seq::<i64>::empty().contains(k));
        assert(!hist.contains(k));
        assert(hist.len() < hcap);
        let h1 = hist.push(k);
        lemma_push_keeps(hist, k);
        let rest = ks.drop_first();
        assert(rest.no_duplicates()) by {
            assert forall|a: int, b: int|
                0 <= a < rest.len() && 0 <= b < rest.len() && a != b implies rest[a] != rest[b] by {
                assert(rest[a] == ks[a + 1] && rest[b] == ks[b + 1]);
            }
        }
        assert forall|q: int| 0 <= q < rest.len() implies !h1.contains(#[trigger] rest[q]) by {
            assert(rest[q] == ks[q + 1]);
            assert(ks[q + 1] != k);
        }
        lemma_access_all_fresh(h1, hcap, ccap, rest);
        assert(h1 + rest =~= hist + ks);
    }
}

} // verus!
