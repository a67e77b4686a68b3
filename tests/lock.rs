use storage_search::lock::{
    lock_expiration, lock_is_stale, lock_key, lock_value, parse_lock_record, refresh, release, try_acquire,
    LockRecord, LOCK_LEASE_MICROS,
};

fn rec(id: &str, node: &str, expiration: i64) -> LockRecord {
    LockRecord {
        lock_id: id.to_string(),
        node: node.to_string(),
        expiration,
    }
}

#[test]
fn free_lock_is_acquired() {
    let (store, ok) = try_acquire(None, 100, rec("a", "node-a", 200));
    assert!(ok);
    assert_eq!(store.unwrap().lock_id, "a");
}

#[test]
fn held_lock_is_not_acquired_by_another_node() {
    let (store, ok) = try_acquire(Some(rec("a", "node-a", 200)), 150, rec("b", "node-b", 300));
    assert!(!ok);
    assert_eq!(store.unwrap().lock_id, "a");
    let (_, ok) = try_acquire(Some(rec("a", "node-a", 200)), 200, rec("b", "node-b", 300));
    assert!(!ok);
}

#[test]
fn stale_lock_is_reaped_and_released() {
    let (store, ok) = try_acquire(Some(rec("a", "node-a", 200)), 201, rec("b", "node-b", 300));
    assert!(ok);
    let store = release(store, "b");
    assert!(store.is_none());
}

#[test]
fn release_keeps_a_lock_taken_over_by_another() {
    let store = release(Some(rec("b", "node-b", 300)), "a");
    assert_eq!(store.unwrap().lock_id, "b");
    assert!(release(None, "a").is_none());
}

#[test]
fn lock_then_unlock_then_lock_again() {
    let (store, ok) = try_acquire(None, 0, rec("a", "n", LOCK_LEASE_MICROS));
    assert!(ok);
    let store = release(store, "a");
    let (_, ok) = try_acquire(store, 1, rec("c", "n", 5));
    assert!(ok);
}

#[test]
fn keep_alive_extends_the_lease() {
    let r = refresh(rec("a", "n", 5), 1_000);
    assert_eq!(r.expiration, 1_000 + 10_000_000);
    assert_eq!(r.lock_id, "a");
}

#[test]
fn lock_key_is_under_locker() {
    assert_eq!(lock_key("/meta/a"), "/locker/meta/a");
}

#[test]
fn lock_record_expiration_is_read_from_the_value() {
    assert_eq!(lock_expiration("id1:node1:1700000000"), Some(1_700_000_000));
    assert_eq!(lock_expiration("id1:node1:soon"), None);
    assert_eq!(lock_is_stale("id1:node1:100", 101), Some(true));
    assert_eq!(lock_is_stale("id1:node1:100", 100), Some(false));
    assert_eq!(lock_is_stale("garbage", 100), None);
}

#[test]
fn lock_records_are_parsed() {
    let r = parse_lock_record("id1:node-a:1700").unwrap();
    assert_eq!((r.lock_id.as_str(), r.node.as_str(), r.expiration), ("id1", "node-a", 1700));
    let r = parse_lock_record("id1:n:o:de:5").unwrap();
    assert_eq!((r.lock_id.as_str(), r.node.as_str(), r.expiration), ("id1", "n:o:de", 5));
    let r = parse_lock_record("id1:5").unwrap();
    assert_eq!((r.lock_id.as_str(), r.node.as_str(), r.expiration), ("id1", "", 5));
    assert!(parse_lock_record("id1").is_none());
    assert!(parse_lock_record("id1:node:later").is_none());
}

#[test]
fn lock_value_reads_back() {
    for (id, node, exp) in [("id1", "node-a", 1700i64), ("x", "", -5), ("y", "a:b", i64::MIN)] {
        let rec = LockRecord {
            lock_id: id.to_string(),
            node: node.to_string(),
            expiration: exp,
        };
        let value = lock_value(&rec);
        assert_eq!(value, format!("{id}:{node}:{exp}"));
        let back = parse_lock_record(&value).unwrap();
        assert_eq!((back.lock_id.as_str(), back.node.as_str(), back.expiration), (id, node, exp));
    }
}
