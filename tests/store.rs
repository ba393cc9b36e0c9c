use std::sync::Arc;

use rusty_redis::response::Response;
use rusty_redis::service::{execute_delete, execute_get, execute_keys, execute_set};
use rusty_redis::store::DataStore;

const ACK: &str = "Hi Client! I'm Dad!";

#[test]
fn ttl_scenario() {
    let mut store = DataStore::new(64);
    let start = 1_000_000u64;
    let payload = b"{\"hello\":\"stream\"}".to_vec();
    store.insert("1234", payload.clone(), 10000, start);
    assert_eq!(payload, *store.get("1234").unwrap());

    store.insert("4321", b"forever".to_vec(), 0, start);
    assert!(store.expire(start + 5000).is_empty());
    assert_eq!(b"forever".to_vec(), *store.get("4321").unwrap());

    let evicted = store.expire(start + 11000);
    assert_eq!(evicted, vec![String::from("1234")]);
    assert!(store.get("1234").is_none());
    assert_eq!(b"forever".to_vec(), *store.get("4321").unwrap());
}

#[test]
fn expiry_follows_ttl_order() {
    let mut store = DataStore::new(8);
    store.insert("C", b"c".to_vec(), 300, 0);
    store.insert("A", b"a".to_vec(), 100, 0);
    store.insert("B", b"b".to_vec(), 200, 0);
    assert_eq!(store.expire(1000), vec![String::from("A"), String::from("B"), String::from("C")]);
    assert!(store.keys().is_empty());
}

#[test]
fn equal_ttls_expire_in_write_order() {
    let mut store = DataStore::new(8);
    store.insert("second", b"2".to_vec(), 50, 10);
    store.insert("first", b"1".to_vec(), 50, 10);
    store.insert("third", b"3".to_vec(), 50, 10);
    assert_eq!(
        store.expire(60),
        vec![String::from("second"), String::from("first"), String::from("third")]
    );
}

#[test]
fn expire_stops_at_first_entry_not_due() {
    let mut store = DataStore::new(8);
    store.insert("a", b"a".to_vec(), 10, 0);
    store.insert("b", b"b".to_vec(), 20, 0);
    store.insert("c", b"c".to_vec(), 30, 0);
    assert_eq!(store.try_expire(9), None);
    assert_eq!(store.try_expire(10), Some(String::from("a")));
    assert_eq!(store.expire(25), vec![String::from("b")]);
    assert_eq!(store.keys(), &vec![String::from("c")]);
    assert!(store.get("c").is_some());
}

#[test]
fn overwrite_replaces_expiry() {
    let mut store = DataStore::new(8);
    store.insert("k", b"old".to_vec(), 10, 0);
    store.insert("k", b"new".to_vec(), 0, 0);
    assert!(store.expire(1_000).is_empty());
    assert_eq!(b"new".to_vec(), *store.get("k").unwrap());

    store.insert("j", b"x".to_vec(), 10, 0);
    store.insert("j", b"y".to_vec(), 100, 0);
    assert!(store.expire(50).is_empty());
    assert_eq!(store.expire(100), vec![String::from("j")]);
}

#[test]
fn delete_removes_entry_and_expiry() {
    let mut store = DataStore::new(8);
    store.insert("k", b"v".to_vec(), 10, 0);
    store.delete("k");
    assert!(store.get("k").is_none());
    assert!(store.expire(100).is_empty());
    store.insert("k", b"w".to_vec(), 0, 0);
    assert_eq!(b"w".to_vec(), *store.get("k").unwrap());
}

#[test]
fn delete_absent_is_noop() {
    let mut store = DataStore::new(4);
    store.insert("a", b"1".to_vec(), 5, 0);
    store.delete("missing");
    store.delete("missing");
    assert_eq!(store.keys(), &vec![String::from("a")]);
    assert_eq!(store.expire(5), vec![String::from("a")]);
}

#[test]
fn largest_ttl_does_not_overflow() {
    let mut store = DataStore::new(4);
    store.insert("k", b"v".to_vec(), u64::MAX, u64::MAX);
    assert!(store.expire(u64::MAX).is_empty());
    assert!(store.get("k").is_some());
}

#[test]
fn lazy_expiry_keeps_value_until_sweep() {
    let mut store = DataStore::new(4);
    store.insert("k", b"v".to_vec(), 1, 0);
    assert_eq!(b"v".to_vec(), *store.get("k").unwrap());
    assert_eq!(store.try_expire(1), Some(String::from("k")));
    assert!(store.get("k").is_none());
}

#[test]
fn handlers_answer_each_command() {
    let mut store = DataStore::new(64);
    assert_eq!(execute_get(&store, "k"), Response::Empty);
    assert_eq!(execute_set(&mut store, "k", b"v".to_vec(), 0, 0), Response::String(ACK.to_string()));
    assert_eq!(execute_get(&store, "k"), Response::Data(Arc::new(b"v".to_vec())));
    assert_eq!(execute_set(&mut store, "j", b"w".to_vec(), 5, 0), Response::String(ACK.to_string()));
    assert_eq!(
        execute_keys(&store),
        Response::Array(Arc::new(vec![String::from("k"), String::from("j")]))
    );
    assert_eq!(execute_delete(&mut store, "k"), Response::String(ACK.to_string()));
    assert_eq!(execute_delete(&mut store, "k"), Response::String(ACK.to_string()));
    assert_eq!(execute_get(&store, "k"), Response::Empty);
    assert_eq!(execute_keys(&store), Response::Array(Arc::new(vec![String::from("j")])));
    assert_eq!(store.expire(5), vec![String::from("j")]);
    assert_eq!(execute_keys(&store), Response::Array(Arc::new(Vec::new())));
}
