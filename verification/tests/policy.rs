use priority_expiry_cache::PECache;

#[test]
fn expiry_takes_precedence_over_priority() {
    // One item due against the barrier, one not: the due item goes first
    // even though its priority is higher than the other's.
    let mut cache = PECache::new();
    cache.set(String::from("early"), String::from("a"), 0, 1);
    cache.set(String::from("late"), String::from("b"), 2, 2);
    cache.evict(1);
    assert_eq!(None, cache.get(String::from("early")));
    assert_eq!(Some(String::from("b")), cache.get(String::from("late")));
    assert_eq!(1, cache.len());
}

#[test]
fn priority_fallback_when_nothing_due() {
    // Nothing is due, so the lowest priority class loses its only member.
    let mut cache = PECache::new();
    cache.set(String::from("keep"), String::from("a"), 10, 5);
    cache.set(String::from("drop"), String::from("b"), 10, 1);
    cache.evict(0);
    assert_eq!(Some(String::from("a")), cache.get(String::from("keep")));
    assert_eq!(None, cache.get(String::from("drop")));
}

#[test]
fn expiry_tie_broken_towards_least_key() {
    // Two items share the minimal expiry and both are due: the
    // lexicographically least key is the one that goes.
    let mut cache = PECache::new();
    cache.set(String::from("b_key"), String::from("b"), 3, 0);
    cache.set(String::from("a_key"), String::from("a"), 3, 0);
    cache.set(String::from("c_key"), String::from("c"), 4, 0);
    cache.evict(3);
    assert_eq!(None, cache.get(String::from("a_key")));
    assert_eq!(Some(String::from("b")), cache.get(String::from("b_key")));
    assert_eq!(Some(String::from("c")), cache.get(String::from("c_key")));
}

#[test]
fn lru_falls_on_first_inserted_without_gets() {
    // Three items share one priority class and none is due; with no get in
    // between, insertion order is recency order, so the first one goes.
    let mut cache = PECache::new();
    cache.set(String::from("one"), String::from("1"), 10, 2);
    cache.set(String::from("two"), String::from("2"), 11, 2);
    cache.set(String::from("three"), String::from("3"), 12, 2);
    cache.evict(5);
    assert_eq!(None, cache.get(String::from("one")));
    assert_eq!(Some(String::from("2")), cache.get(String::from("two")));
    assert_eq!(Some(String::from("3")), cache.get(String::from("three")));
}

#[test]
fn overwrite_retracts_old_expiry_entry() {
    // The first record of "a" would be due against the barrier, but the
    // overwrite retracted it; eviction must fall back to the priority rule
    // and remove "b", not act on the superseded expiry entry.
    let mut cache = PECache::new();
    cache.set(String::from("a"), String::from("old"), 0, 9);
    cache.set(String::from("a"), String::from("new"), 100, 9);
    cache.set(String::from("b"), String::from("low"), 60, 1);
    cache.evict(50);
    assert_eq!(Some(String::from("new")), cache.get(String::from("a")));
    assert_eq!(None, cache.get(String::from("b")));
    assert_eq!(1, cache.len());
}

#[test]
fn overwrite_retracts_old_bucket_membership() {
    // "a" moved from class 1 to class 7, so class 1 holds only "b": the
    // priority fallback must take "b", not consult a stale membership.
    let mut cache = PECache::new();
    cache.set(String::from("a"), String::from("old"), 50, 1);
    cache.set(String::from("b"), String::from("x"), 60, 1);
    cache.set(String::from("a"), String::from("new"), 70, 7);
    cache.evict(0);
    assert_eq!(Some(String::from("new")), cache.get(String::from("a")));
    assert_eq!(None, cache.get(String::from("b")));
}

#[test]
fn len_counts_reachable_keys() {
    // The length always equals the number of keys a get would answer.
    let mut cache = PECache::new();
    assert_eq!(0, cache.len());
    cache.set(String::from("a"), String::from("1"), 1, 1);
    assert_eq!(1, cache.len());
    cache.set(String::from("b"), String::from("2"), 2, 2);
    assert_eq!(2, cache.len());
    cache.set(String::from("a"), String::from("3"), 3, 3);
    assert_eq!(2, cache.len());
    cache.evict(0);
    assert_eq!(1, cache.len());
    cache.evict(10);
    assert_eq!(0, cache.len());
    cache.evict(10);
    assert_eq!(0, cache.len());
    assert_eq!(None, cache.get(String::from("a")));
    assert_eq!(None, cache.get(String::from("b")));
}

#[test]
fn empty_cache_is_safe() {
    let mut cache = PECache::new();
    cache.evict(0);
    cache.evict(u64::MAX);
    assert_eq!(None, cache.get(String::from("anything")));
    assert_eq!(0, cache.len());
}

#[test]
fn bucket_is_dropped_and_recreated() {
    // Empty a priority class entirely, then use it again: the class must
    // behave as if freshly created.
    let mut cache = PECache::new();
    cache.set(String::from("a"), String::from("1"), 10, 3);
    cache.evict(0);
    assert_eq!(0, cache.len());
    cache.set(String::from("b"), String::from("2"), 10, 3);
    cache.set(String::from("c"), String::from("3"), 11, 3);
    cache.evict(0);
    assert_eq!(None, cache.get(String::from("b")));
    assert_eq!(Some(String::from("3")), cache.get(String::from("c")));
}

#[test]
fn get_promotes_within_class() {
    // A got key is most recently used: with two keys in one class and
    // nothing due, eviction takes the other one.
    let mut cache = PECache::new();
    cache.set(String::from("a"), String::from("1"), 10, 2);
    cache.set(String::from("b"), String::from("2"), 11, 2);
    cache.get(String::from("a"));
    cache.evict(5);
    assert_eq!(Some(String::from("1")), cache.get(String::from("a")));
    assert_eq!(None, cache.get(String::from("b")));
}

#[test]
fn recency_is_scoped_to_the_class() {
    // A get in one class does not change standings in another: class 1 is
    // the lowest and its least recently used key goes, however often keys
    // of class 2 are touched.
    let mut cache = PECache::new();
    cache.set(String::from("p1_old"), String::from("a"), 10, 1);
    cache.set(String::from("p1_new"), String::from("b"), 10, 1);
    cache.set(String::from("p2"), String::from("c"), 10, 2);
    cache.get(String::from("p2"));
    cache.evict(5);
    assert_eq!(None, cache.get(String::from("p1_old")));
    assert_eq!(Some(String::from("b")), cache.get(String::from("p1_new")));
    assert_eq!(Some(String::from("c")), cache.get(String::from("p2")));
}
