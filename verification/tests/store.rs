use kvcache::store::KeyValueStore;

fn set(s: &mut KeyValueStore, key: &str, value: &str, ttl: Option<u64>, now: u64) {
    s.set(key.as_bytes().to_vec(), value.as_bytes().to_vec(), ttl, now);
}

fn get(s: &mut KeyValueStore, key: &str, now: u64) -> Option<String> {
    s.get(key.as_bytes(), now).map(|v| String::from_utf8(v).unwrap())
}

#[test]
fn ttl_bounds_the_lifetime() {
    let mut s = KeyValueStore::new();
    set(&mut s, "k", "v", Some(2), 10);
    assert_eq!(get(&mut s, "k", 10), Some("v".to_string()));
    assert_eq!(get(&mut s, "k", 11), Some("v".to_string()));
    assert_eq!(get(&mut s, "k", 12), None);
    assert_eq!(get(&mut s, "k", 13), None);
}

#[test]
fn zero_ttl_expires_at_once() {
    let mut s = KeyValueStore::new();
    set(&mut s, "k", "v", Some(0), 5);
    assert_eq!(get(&mut s, "k", 5), None);
}

#[test]
fn no_ttl_never_expires() {
    let mut s = KeyValueStore::new();
    set(&mut s, "k", "v", None, 0);
    assert_eq!(get(&mut s, "k", u64::MAX), Some("v".to_string()));
}

#[test]
fn huge_ttl_saturates_instead_of_wrapping() {
    let mut s = KeyValueStore::new();
    set(&mut s, "k", "v", Some(u64::MAX), 100);
    assert_eq!(get(&mut s, "k", u64::MAX - 1), Some("v".to_string()));
}

#[test]
fn second_set_replaces_value_and_expiration() {
    let mut s = KeyValueStore::new();
    set(&mut s, "k", "first", Some(100), 0);
    set(&mut s, "k", "second", Some(1), 0);
    assert_eq!(get(&mut s, "k", 0), Some("second".to_string()));
    // the long ttl of the first set is gone too
    assert_eq!(get(&mut s, "k", 5), None);
}

#[test]
fn delete_reports_presence() {
    let mut s = KeyValueStore::new();
    assert!(!s.delete(b"k"));
    set(&mut s, "k", "v", Some(100), 0);
    assert!(s.delete(b"k"));
    assert_eq!(get(&mut s, "k", 0), None);
    assert!(!s.delete(b"k"));
}

#[test]
fn delete_removes_expired_entries_too() {
    let mut s = KeyValueStore::new();
    set(&mut s, "k", "v", Some(1), 0);
    assert!(s.delete(b"k"));
}

#[test]
fn listing_excludes_expired_permanently() {
    let mut s = KeyValueStore::new();
    set(&mut s, "a", "1", Some(100), 0);
    set(&mut s, "b", "2", Some(1), 0);
    let keys = s.get_all(50);
    assert_eq!(keys, vec![b"a".to_vec()]);
    // the expired entry was purged: still absent from a later listing
    let keys = s.get_all(50);
    assert_eq!(keys, vec![b"a".to_vec()]);
    assert_eq!(s.len(), 1);
}

#[test]
fn listing_keeps_storage_order() {
    let mut s = KeyValueStore::new();
    set(&mut s, "a", "1", Some(100), 0);
    set(&mut s, "b", "2", Some(100), 0);
    set(&mut s, "c", "3", Some(100), 0);
    assert_eq!(s.get_all(0), vec![b"a".to_vec(), b"b".to_vec(), b"c".to_vec()]);
}

#[test]
fn sweep_reclaims_every_expired_entry() {
    let mut s = KeyValueStore::new();
    for i in 0..100u64 {
        set(&mut s, &format!("k{}", i), "v", Some(1), 0);
    }
    set(&mut s, "keep", "v", Some(1000), 0);
    assert_eq!(s.len(), 101);
    s.clean_expired(10);
    assert_eq!(s.len(), 1);
    // idempotent: a second sweep is a no-op
    s.clean_expired(10);
    assert_eq!(s.len(), 1);
    assert_eq!(get(&mut s, "keep", 10), Some("v".to_string()));
}

#[test]
fn sweep_is_a_noop_when_nothing_expired() {
    let mut s = KeyValueStore::new();
    set(&mut s, "a", "1", Some(100), 0);
    set(&mut s, "b", "2", None, 0);
    s.clean_expired(50);
    assert_eq!(s.len(), 2);
}
