use storage_search::kv_key::{bucket_of_key, key_decode, key_encode, NatsDb, SqliteDb};
use storage_search::text::starts_with;

#[test]
fn key_encode_uses_url_safe_alphabet() {
    assert_eq!(key_encode("abc"), "YWJj");
    assert_eq!(key_encode("?>?"), "Pz4_");
    assert_eq!(key_encode("o2/nodes/x"), "bzIvbm9kZXMveA==");
    assert_eq!(key_encode(""), "");
}

#[test]
fn key_decode_inverts_key_encode() {
    for key in ["abc", "?>?", "o2/nodes/x", "", "/locker/meta/ü/漢"] {
        let encoded = key_encode(key);
        assert_eq!(key_decode(&encoded), Some(key.to_string()));
    }
}

#[test]
fn key_decode_rejects_non_keys() {
    assert_eq!(key_decode("!!"), None);
    assert_eq!(key_decode("Pz4/"), None);
}

#[test]
fn nats_db_trims_trailing_slashes() {
    assert_eq!(NatsDb::new("o2_//").prefix(), "o2_");
    assert_eq!(NatsDb::new("o2_").prefix(), "o2_");
    assert_eq!(NatsDb::new("///").prefix(), "");
    assert_eq!(NatsDb::new("a/b/").prefix(), "a/b");
}

#[test]
fn super_cluster_prefix() {
    assert_eq!(NatsDb::super_cluster().prefix(), "super_cluster_kv_");
}

#[test]
fn sqlite_db_new() {
    let _db = SqliteDb::new();
}

#[test]
fn bucket_of_key_splits_first_segment() {
    let (bucket, rest) = bucket_of_key("o2_", "/nodes/abc/def");
    assert_eq!(bucket, "o2_nodes");
    assert_eq!(rest, "/abc/def");
    let (bucket, rest) = bucket_of_key("", "//meta");
    assert_eq!(bucket, "meta");
    assert_eq!(rest, "");
}

#[test]
fn starts_with_compares_prefix() {
    assert!(starts_with("abc:node:1", "abc"));
    assert!(starts_with("abc", ""));
    assert!(!starts_with("ab", "abc"));
    assert!(!starts_with("abd", "abc"));
}
