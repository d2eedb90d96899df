use lru2_cache::store::{Lru2Cache, ABSENT};

/// A key seen once stays probationary; its second access promotes it.
#[test]
fn promote_on_second_access() {
    let mut s = Lru2Cache::new(2, 2);
    s.insert(1);
    s.insert(2);
    s.insert(1);
    assert_eq!(s.get_history_list(), vec![2]);
    assert_eq!(s.get_cache_list(), vec![1]);
}

/// Repeated pairs with a one-slot history: every key is promoted on its
/// second access, and the full cache evicts its head on the last
/// promotion.
#[test]
fn repeated_pairs_small_history() {
    let mut s = Lru2Cache::new(1, 2);
    for k in [1, 1, 2, 2, 3, 3] {
        s.insert(k);
    }
    assert_eq!(s.get_history_list(), Vec::<i64>::new());
    assert_eq!(s.get_cache_list(), vec![2, 3]);
}

/// Three distinct keys through a two-slot history evict exactly the first.
#[test]
fn fifo_eviction_from_history() {
    let mut s = Lru2Cache::new(2, 2);
    s.insert(1);
    s.insert(2);
    s.insert(3);
    assert_eq!(s.get_history_list(), vec![2, 3]);
    assert_eq!(s.get_cache_list(), Vec::<i64>::new());
}

/// Re-accessing a cached key evicts nothing and moves it to the tail;
/// promoting a new key into the full cache evicts the cache head.
#[test]
fn lru_eviction_from_cache() {
    let mut s = Lru2Cache::new(2, 2);
    for k in [1, 1, 2, 2] {
        s.insert(k);
    }
    assert_eq!(s.get_cache_list(), vec![1, 2]);
    s.insert(1);
    assert_eq!(s.get_history_list(), Vec::<i64>::new());
    assert_eq!(s.get_cache_list(), vec![2, 1]);
    s.insert(3);
    s.insert(3);
    assert_eq!(s.get_history_list(), Vec::<i64>::new());
    assert_eq!(s.get_cache_list(), vec![1, 3]);
}

/// Accessing the key already at the cache tail changes nothing, however
/// often it is repeated.
#[test]
fn tail_reaccess_idempotent() {
    let mut s = Lru2Cache::new(2, 2);
    for k in [1, 1, 2, 2] {
        s.insert(k);
    }
    assert_eq!(s.get_cache_list(), vec![1, 2]);
    for _ in 0..5 {
        s.insert(2);
        assert_eq!(s.get_history_list(), Vec::<i64>::new());
        assert_eq!(s.get_cache_list(), vec![1, 2]);
    }
}

/// Queue lengths never pass the capacities, whatever the input.
#[test]
fn capacity_bound() {
    let mut s = Lru2Cache::new(3, 2);
    for k in [7, 8, 7, 9, 8, 10, 9, 10, 7, 7, 11, 12, 13, 11] {
        s.insert(k);
        assert!(s.get_history_list().len() <= 3);
        assert!(s.get_cache_list().len() <= 2);
    }
}

/// A zero-capacity history retains nothing, so no key is ever promoted.
#[test]
fn zero_history_capacity() {
    let mut s = Lru2Cache::new(0, 2);
    for k in [1, 1, 2, 1] {
        s.insert(k);
        assert_eq!(s.get_history_list(), Vec::<i64>::new());
        assert_eq!(s.get_cache_list(), Vec::<i64>::new());
    }
}

/// A zero-capacity cache retains nothing: a promotion drops the key, and
/// the key counts as new again afterwards.
#[test]
fn zero_cache_capacity() {
    let mut s = Lru2Cache::new(2, 0);
    s.insert(1);
    assert_eq!(s.get_history_list(), vec![1]);
    s.insert(1);
    assert_eq!(s.get_history_list(), Vec::<i64>::new());
    assert_eq!(s.get_cache_list(), Vec::<i64>::new());
    s.insert(1);
    assert_eq!(s.get_history_list(), vec![1]);
    assert_eq!(s.get_cache_list(), Vec::<i64>::new());
}

/// The position index holds exactly the keys of the two queues, each
/// mapped to its live slot, after every access.
#[test]
fn index_consistent_after_each_access() {
    let mut s = Lru2Cache::new(2, 2);
    for k in [1, 1, 2, 2, 3, 3, 2, 4, 5, 4, 1, 1] {
        s.insert(k);
        let hist = s.get_history_list();
        let cache = s.get_cache_list();
        assert_eq!(s.map.len(), hist.len() + cache.len());
        for (i, k) in hist.iter().enumerate() {
            assert_eq!(s.map.get(k), Some(&(i, ABSENT)));
            assert!(!cache.contains(k));
        }
        for (j, k) in cache.iter().enumerate() {
            assert_eq!(s.map.get(k), Some(&(ABSENT, j)));
        }
    }
}

/// A key re-accessed after a cache eviction shifted its slot is still
/// found at its true position: the index is renumbered on eviction.
#[test]
fn reaccess_after_cache_eviction() {
    let mut s = Lru2Cache::new(2, 2);
    for k in [1, 1, 2, 2, 3, 3] {
        s.insert(k);
    }
    assert_eq!(s.get_cache_list(), vec![2, 3]);
    s.insert(2);
    assert_eq!(s.get_history_list(), Vec::<i64>::new());
    assert_eq!(s.get_cache_list(), vec![3, 2]);
}

/// A key re-accessed after a history eviction shifted its slot is still
/// found at its true position: the index is renumbered on eviction.
#[test]
fn reaccess_after_history_eviction() {
    let mut s = Lru2Cache::new(2, 2);
    s.insert(1);
    s.insert(2);
    s.insert(3);
    assert_eq!(s.get_history_list(), vec![2, 3]);
    s.insert(2);
    assert_eq!(s.get_history_list(), vec![3]);
    assert_eq!(s.get_cache_list(), vec![2]);
}

/// Negative and extreme keys behave like any others.
#[test]
fn extreme_keys() {
    let mut s = Lru2Cache::new(2, 1);
    s.insert(i64::MIN);
    s.insert(i64::MAX);
    s.insert(i64::MIN);
    assert_eq!(s.get_history_list(), vec![i64::MAX]);
    assert_eq!(s.get_cache_list(), vec![i64::MIN]);
    s.insert(i64::MAX);
    assert_eq!(s.get_history_list(), Vec::<i64>::new());
    assert_eq!(s.get_cache_list(), vec![i64::MAX]);
}
