//! Behaviour of the cache driven at explicitly supplied instants, so that
//! every expiry decision is deterministic.

use ttl_cache::cache::TtlCache;

#[test]
fn insert_then_immediate_get_returns_value() {
    let mut c = TtlCache::new();
    c.insert_at("k".to_string(), "v".to_string(), 50, 100);
    assert_eq!(c.get_at("k", 100), Some("v".to_string()));
}

#[test]
fn overwrite_uses_only_second_value_and_expiry() {
    let mut c = TtlCache::new();
    c.insert_at("k".to_string(), "first".to_string(), 100, 0);
    c.insert_at("k".to_string(), "second".to_string(), 5, 0);
    // The second insertion's value is the one seen.
    assert_eq!(c.get_at("k", 3), Some("second".to_string()));
    // The first insertion's longer lifetime has no residual effect: the
    // entry is stale once the second expiry (instant 5) has passed.
    assert_eq!(c.get_at("k", 6), None);
}

#[test]
fn overwrite_can_lengthen_lifetime() {
    let mut c = TtlCache::new();
    c.insert_at("k".to_string(), "short".to_string(), 5, 0);
    c.insert_at("k".to_string(), "long".to_string(), 100, 0);
    assert_eq!(c.get_at("k", 50), Some("long".to_string()));
}

#[test]
fn expiry_boundary_is_inclusive() {
    let mut c = TtlCache::new();
    c.insert_at("k".to_string(), "v".to_string(), 10, 100);
    // Before the expiry instant.
    assert_eq!(c.get_at("k", 109), Some("v".to_string()));
    // Exactly at the expiry instant the entry is still live.
    assert_eq!(c.get_at("k", 110), Some("v".to_string()));
    // One instant past it the entry is gone.
    assert_eq!(c.get_at("k", 111), None);
}

#[test]
fn lazy_removal_after_stale_get() {
    let mut c = TtlCache::new();
    c.insert_at("k".to_string(), "v".to_string(), 10, 0);
    assert_eq!(c.len(), 1);
    assert_eq!(c.get_at("k", 11), None);
    // The stale entry was removed by the lookup itself: nothing is left
    // for a purge to count.
    assert_eq!(c.len(), 0);
    assert_eq!(c.purge_expired_at(11), 0);
}

#[test]
fn purge_removes_exactly_the_expired_entries() {
    let mut c = TtlCache::new();
    c.insert_at("a".to_string(), "1".to_string(), 100, 0);
    c.insert_at("b".to_string(), "2".to_string(), 5, 0);
    c.insert_at("c".to_string(), "3".to_string(), 200, 0);
    c.insert_at("d".to_string(), "4".to_string(), 1, 0);
    assert_eq!(c.len(), 4);
    // At instant 50, entries b (expiry 5) and d (expiry 1) are stale.
    assert_eq!(c.purge_expired_at(50), 2);
    assert_eq!(c.len(), 2);
    // The survivors are still retrievable.
    assert_eq!(c.get_at("a", 50), Some("1".to_string()));
    assert_eq!(c.get_at("c", 50), Some("3".to_string()));
    // The purged entries are gone.
    assert_eq!(c.get_at("b", 50), None);
    assert_eq!(c.get_at("d", 50), None);
}

#[test]
fn purge_on_all_live_removes_nothing() {
    let mut c = TtlCache::new();
    c.insert_at("a".to_string(), "1".to_string(), 100, 0);
    c.insert_at("b".to_string(), "2".to_string(), 100, 0);
    assert_eq!(c.purge_expired_at(10), 0);
    assert_eq!(c.len(), 2);
}

#[test]
fn missing_key_returns_none_repeatably_without_side_effects() {
    let mut c = TtlCache::new();
    c.insert_at("kept".to_string(), "v".to_string(), 100, 0);
    assert_eq!(c.get_at("missing", 1), None);
    assert_eq!(c.get_at("missing", 1), None);
    // The other entry is untouched.
    assert_eq!(c.len(), 1);
    assert_eq!(c.get_at("kept", 1), Some("v".to_string()));
}

#[test]
fn zero_ttl_entry_is_born_expired() {
    let mut c = TtlCache::new();
    c.insert_at("k".to_string(), "v".to_string(), 0, 100);
    // One instant after insertion the entry is already stale.
    assert_eq!(c.get_at("k", 101), None);
    assert_eq!(c.len(), 0);
}

#[test]
fn empty_key_and_empty_value_are_allowed() {
    let mut c = TtlCache::new();
    c.insert_at("".to_string(), "".to_string(), 10, 0);
    assert_eq!(c.get_at("", 5), Some("".to_string()));
}

#[test]
fn huge_ttl_saturates_and_never_expires() {
    let mut c = TtlCache::new();
    c.insert_at("k".to_string(), "v".to_string(), u64::MAX, 5);
    assert_eq!(c.get_at("k", u64::MAX), Some("v".to_string()));
}

#[test]
fn scenario_lazy_get_then_purge() {
    // insert "a" for 100 ms and "b" for 0 ms at instant 0; shortly after,
    // "a" is live and "b" is stale.
    let mut c = TtlCache::new();
    c.insert_at("a".to_string(), "1".to_string(), 100, 0);
    c.insert_at("b".to_string(), "2".to_string(), 0, 0);
    assert_eq!(c.get_at("a", 1), Some("1".to_string()));
    // The stale lookup removes "b" on the spot...
    assert_eq!(c.get_at("b", 1), None);
    // ...so the purge finds nothing left to remove.
    assert_eq!(c.purge_expired_at(1), 0);
    // Past "a"'s expiry, the lazy lookup removes it too.
    assert_eq!(c.get_at("a", 101), None);
    assert_eq!(c.purge_expired_at(101), 0);
    assert_eq!(c.len(), 0);
}

#[test]
fn scenario_purge_before_touching_stale_entry() {
    // As above, but the purge runs before any lookup of "b": the purge is
    // what removes the born-expired entry, and it counts it.
    let mut c = TtlCache::new();
    c.insert_at("a".to_string(), "1".to_string(), 100, 0);
    c.insert_at("b".to_string(), "2".to_string(), 0, 0);
    assert_eq!(c.get_at("a", 1), Some("1".to_string()));
    assert_eq!(c.purge_expired_at(1), 1);
    assert_eq!(c.get_at("b", 1), None);
    assert_eq!(c.len(), 1);
}
