use oblivion::ttl::TtlIndex;

#[test]
fn test_set_and_check_ttl() {
    let mut ttl = TtlIndex::new();
    ttl.set_ttl(b"key1".to_vec(), 10_000);
    assert!(!ttl.is_expired(b"key1"));
    assert!(ttl.remaining_ttl(b"key1").unwrap() > 0);
}

#[test]
fn test_no_ttl_never_expires() {
    let ttl = TtlIndex::new();
    assert!(!ttl.is_expired(b"no_ttl_key"));
    assert_eq!(ttl.remaining_ttl(b"no_ttl_key"), None);
}

#[test]
fn test_immediate_expiration() {
    let mut ttl = TtlIndex::new();
    ttl.set_expiration(b"old_key".to_vec(), 0);
    assert!(ttl.is_expired(b"old_key"));
    assert_eq!(ttl.remaining_ttl(b"old_key"), Some(0));
}

#[test]
fn test_remove_ttl() {
    let mut ttl = TtlIndex::new();
    ttl.set_ttl(b"key".to_vec(), 1000);
    assert_eq!(ttl.len(), 1);
    ttl.remove_ttl(b"key");
    assert_eq!(ttl.len(), 0);
    assert!(!ttl.is_expired(b"key"));
}

#[test]
fn test_collect_expired() {
    let mut ttl = TtlIndex::new();
    ttl.set_expiration(b"expired1".to_vec(), 0);
    ttl.set_expiration(b"expired2".to_vec(), 1);
    ttl.set_ttl(b"active".to_vec(), 60_000);
    let expired = ttl.collect_expired();
    assert_eq!(expired.len(), 2);
    assert!(expired.contains(&b"expired1".to_vec()));
    assert!(expired.contains(&b"expired2".to_vec()));
}

#[test]
fn test_purge_expired() {
    let mut ttl = TtlIndex::new();
    ttl.set_expiration(b"old1".to_vec(), 0);
    ttl.set_expiration(b"old2".to_vec(), 0);
    ttl.set_ttl(b"fresh".to_vec(), 60_000);
    assert_eq!(ttl.len(), 3);
    let purged = ttl.purge_expired();
    assert_eq!(purged, 2);
    assert_eq!(ttl.len(), 1);
}

#[test]
fn ttl_expiry_at_given_times() {
    let mut ttl = TtlIndex::new();
    ttl.set_ttl_at(b"short".to_vec(), 50, 1_000);
    assert_eq!(ttl.get_expiration(b"short"), Some(1_050));
    assert!(!ttl.is_expired_at(b"short", 1_049));
    assert!(ttl.is_expired_at(b"short", 1_050));
    assert_eq!(ttl.remaining_ttl_at(b"short", 1_000), Some(50));
    assert_eq!(ttl.remaining_ttl_at(b"short", 2_000), Some(0));
    assert_eq!(ttl.remaining_ttl_at(b"other", 2_000), None);
}

#[test]
fn ttl_deadline_saturates() {
    let mut ttl = TtlIndex::new();
    ttl.set_ttl_at(b"k".to_vec(), u64::MAX, 10);
    assert_eq!(ttl.get_expiration(b"k"), Some(u64::MAX));
    assert!(!ttl.is_expired_at(b"k", u64::MAX - 1));
}

#[test]
fn ttl_collect_and_purge_at_time_in_key_order() {
    let mut ttl = TtlIndex::new();
    ttl.set_expiration(b"c".to_vec(), 5);
    ttl.set_expiration(b"a".to_vec(), 10);
    ttl.set_expiration(b"b".to_vec(), 20);
    assert_eq!(ttl.collect_expired_at(10), vec![b"a".to_vec(), b"c".to_vec()]);
    assert_eq!(ttl.purge_expired_at(10), 2);
    assert_eq!(ttl.len(), 1);
    assert_eq!(ttl.get_expiration(b"b"), Some(20));
    assert_eq!(ttl.purge_expired_at(10), 0);
    assert!(!ttl.is_empty());
}

#[test]
fn ttl_overwrite_replaces_expiry() {
    let mut ttl = TtlIndex::new();
    ttl.set_expiration(b"k".to_vec(), 5);
    ttl.set_expiration(b"k".to_vec(), 50);
    assert_eq!(ttl.len(), 1);
    assert!(!ttl.is_expired_at(b"k", 10));
}

#[test]
fn test_short_ttl_expires() {
    let mut ttl = TtlIndex::new();
    let start = 1_700_000_000_000u64;
    ttl.set_ttl_at(b"short".to_vec(), 50, start);

    assert!(!ttl.is_expired_at(b"short", start));

    let later = start + 100;

    assert!(ttl.is_expired_at(b"short", later));
    assert_eq!(ttl.remaining_ttl_at(b"short", later), Some(0));
}
