//! Tests for the store: create, set/get/remove, size, keys, and bulk
//! load/save through kv file bytes.

use tiny_kv::db::DataStore;
use tiny_kv::errors::KvError;

/// Ten users, the shape of a reference kv file with at least ten entries.
fn users_ref_bytes() -> Vec<u8> {
    let mut out = Vec::new();
    let users = [
        ("u1001", "alice"),
        ("u1002", "bob"),
        ("u1003", "carol"),
        ("u1004", "dave"),
        ("u1005", "erin"),
        ("u1006", "frank"),
        ("u1007", "grace"),
        ("u1008", "heidi"),
        ("u1009", "ivan"),
        ("u1010", "judy"),
    ];
    for (k, v) in users.iter() {
        out.extend_from_slice(k.as_bytes());
        out.push(0x20);
        out.extend_from_slice(v.as_bytes());
        out.push(0x0d);
        out.push(0x0a);
    }
    out
}

fn create_store() -> DataStore {
    DataStore::create()
}

#[test]
fn loaddb() {
    let store = create_store();
    assert!(store.load_bytes(&users_ref_bytes()).unwrap() >= 10);
}

#[test]
fn savedb() {
    let store = create_store();
    assert!(store.load_bytes(&users_ref_bytes()).unwrap() >= 10);
    let dbsize = store.dbsize();

    let sz = store.save_bytes();
    assert!(sz.is_ok());
    let (_, count) = sz.unwrap();
    assert_eq!(dbsize, count);
}

#[test]
fn set_get_remove() {
    let mut store = create_store();
    assert_eq!(store.dbsize(), 0);
    let key = "mykey";
    let value = "this is my value".as_bytes().to_vec();

    let resp = store.set(key, value.clone());
    assert!(resp.is_none());
    assert_eq!(store.dbsize(), 1);

    let keys = store.keys();
    println!("{:?}", keys);
    assert_eq!(keys.len(), store.dbsize());

    let resp = store.get(key).unwrap();
    assert_eq!(resp, value);

    let resp = store.get("not a valid key");
    assert!(resp.is_none());

    let resp = store.remove(key);
    assert!(resp.is_some());

    assert_eq!(store.dbsize(), 0);
}

#[test]
fn create() {
    let store = DataStore::create();
    assert_eq!(store.dbsize(), 0);
}

#[test]
fn set_then_get_returns_value() {
    let mut store = create_store();
    store.set("k", b"v".to_vec());
    assert_eq!(store.get("k"), Some(b"v".to_vec()));
}

#[test]
fn remove_then_absent_twice() {
    let mut store = create_store();
    store.set("k", b"v".to_vec());
    assert_eq!(store.remove("k"), Some(b"v".to_vec()));
    assert_eq!(store.get("k"), None);
    assert_eq!(store.remove("k"), None);
    assert_eq!(store.get("k"), None);
}

#[test]
fn size_counts_distinct_keys() {
    let mut store = create_store();
    store.set("a", b"1".to_vec());
    store.set("b", b"2".to_vec());
    assert_eq!(store.dbsize(), 2);
    store.set("a", b"3".to_vec());
    assert_eq!(store.dbsize(), 2);
    store.remove("b");
    assert_eq!(store.dbsize(), 1);
    store.remove("b");
    assert_eq!(store.dbsize(), 1);
}

#[test]
fn scenario_overwrite_and_remove() {
    let mut store = create_store();
    store.set("u1", b"alice".to_vec());
    assert_eq!(store.dbsize(), 1);
    assert_eq!(store.set("u1", b"alicia".to_vec()), Some(b"alice".to_vec()));
    assert_eq!(store.dbsize(), 1);
    assert_eq!(store.get("u1"), Some(b"alicia".to_vec()));
    assert_eq!(store.remove("u1"), Some(b"alicia".to_vec()));
    assert_eq!(store.get("u1"), None);
    assert_eq!(store.dbsize(), 0);
}

#[test]
fn round_trip_save_load() {
    let mut store = create_store();
    store.set("u1", b"alice".to_vec());
    store.set("u2", b"bob with spaces".to_vec());
    store.set("u3", b"".to_vec());
    let (bytes, count) = store.save_bytes().unwrap();
    assert_eq!(count, 3);

    let fresh = create_store();
    assert_eq!(fresh.load_bytes(&bytes).unwrap(), 3);
    assert_eq!(fresh.get("u1"), Some(b"alice".to_vec()));
    assert_eq!(fresh.get("u2"), Some(b"bob with spaces".to_vec()));
    assert_eq!(fresh.get("u3"), Some(b"".to_vec()));
    assert_eq!(fresh.dbsize(), store.dbsize());
}

#[test]
fn load_is_additive() {
    let mut store = create_store();
    store.set("a", b"kept".to_vec());
    let loaded = store.load_bytes(b"b fresh\n").unwrap();
    assert_eq!(loaded, 2);
    assert_eq!(store.get("a"), Some(b"kept".to_vec()));
    assert_eq!(store.get("b"), Some(b"fresh".to_vec()));
}

#[test]
fn load_overwrites_same_key() {
    let mut store = create_store();
    store.set("a", b"old".to_vec());
    store.load_bytes(b"a new\n").unwrap();
    assert_eq!(store.get("a"), Some(b"new".to_vec()));
    assert_eq!(store.dbsize(), 1);
}

#[test]
fn malformed_line_fails_format() {
    let store = create_store();
    let mut bytes = Vec::new();
    bytes.extend_from_slice(b"u1 alice\n");
    bytes.extend_from_slice(b"nospacehere\n");
    let err = store.load_bytes(&bytes).unwrap_err();
    assert_eq!(err, KvError::FormatError);
    // All-or-nothing: the well-formed first line was not applied either.
    assert_eq!(store.dbsize(), 0);
}

#[test]
fn save_rejects_space_in_key() {
    let mut store = create_store();
    store.set("bad key", b"v".to_vec());
    assert_eq!(store.save_bytes().unwrap_err(), KvError::FormatError);
}

#[test]
fn keys_listing_is_distinct_and_complete() {
    let mut store = create_store();
    store.set("a", b"1".to_vec());
    store.set("b", b"2".to_vec());
    store.set("a", b"3".to_vec());
    let mut keys = store.keys();
    keys.sort();
    assert_eq!(keys, vec!["a".to_string(), "b".to_string()]);
}

#[test]
fn clones_share_one_mapping() {
    let store = create_store();
    let mut first = store.clone();
    let mut second = store.clone();
    for t in 0..8u8 {
        let key = format!("k{}", t);
        if t % 2 == 0 {
            first.set(&key, vec![t]);
        } else {
            second.set(&key, vec![t]);
        }
    }
    assert_eq!(store.dbsize(), 8);
    assert_eq!(store.get("k3"), Some(vec![3]));
}
