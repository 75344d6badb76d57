use redis_lite::store::Store;

#[test]
fn set_then_get() {
    let mut s = Store::new();
    s.set(b"foo".to_vec(), b"bar".to_vec(), None, 10);
    assert_eq!(s.get(b"foo", 1_000_000), Some(b"bar".to_vec()));
    assert_eq!(s.get(b"missing", 0), None);
    s.set(b"foo".to_vec(), b"baz".to_vec(), None, 10);
    assert_eq!(s.get(b"foo", 0), Some(b"baz".to_vec()));
    assert_eq!(s.len(), 1);
}

#[test]
fn zero_ttl_is_absent_at_once_and_removed() {
    let mut s = Store::new();
    s.set(b"k".to_vec(), b"v".to_vec(), Some(0), 500);
    assert_eq!(s.len(), 1);
    assert_eq!(s.get(b"k", 500), None);
    assert_eq!(s.len(), 0);
    assert_eq!(s.get(b"k", 500), None);
}

#[test]
fn expiry_comes_at_its_instant() {
    let mut s = Store::new();
    s.set(b"k".to_vec(), b"v".to_vec(), Some(100), 1000);
    assert_eq!(s.get(b"k", 1099), Some(b"v".to_vec()));
    assert_eq!(s.get(b"k", 1100), None);
    assert_eq!(s.len(), 0);
    s.set(b"far".to_vec(), b"v".to_vec(), Some(u64::MAX), 1000);
    assert_eq!(s.get(b"far", u64::MAX - 1), Some(b"v".to_vec()));
}

#[test]
fn keys_lists_all_for_star_only() {
    let mut s = Store::new();
    s.set(b"a".to_vec(), b"1".to_vec(), None, 0);
    s.set(b"b".to_vec(), b"2".to_vec(), None, 0);
    s.set(b"a".to_vec(), b"3".to_vec(), None, 0);
    let mut keys = s.keys(b"*");
    keys.sort();
    assert_eq!(keys, vec![b"a".to_vec(), b"b".to_vec()]);
    assert!(s.keys(b"a").is_empty());
    assert!(s.keys(b"a*").is_empty());
    assert!(Store::new().keys(b"*").is_empty());
}

#[test]
fn insert_keeps_given_expiry() {
    let mut s = Store::new();
    s.insert(b"k".to_vec(), Some(50), b"v".to_vec());
    assert_eq!(s.get(b"k", 49), Some(b"v".to_vec()));
    assert_eq!(s.get(b"k", 50), None);
}
