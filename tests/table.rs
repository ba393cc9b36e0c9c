use std::sync::Arc;

use rusty_redis::table::{find_matching_node, hash_key, HNode, HTable};

#[test]
fn table_test_hash_key() {
    let value = "hi";
    let hash_key = hash_key(value);

    // 104 + 105 = 209
    assert_eq!(209, hash_key);
}

#[test]
fn table_test_find_matching_node() {
    let bucket = vec![
        Arc::new(HNode {
            code: 123,
            key: String::from("node1"),
            value: Arc::new(String::from("val1").into_bytes()),
        }),
        Arc::new(HNode {
            code: 123,
            key: String::from("node2"),
            value: Arc::new(String::from("val2").into_bytes()),
        }),
        Arc::new(HNode {
            code: 123,
            key: String::from("node3"),
            value: Arc::new(String::from("val3").into_bytes()),
        }),
    ];

    assert_eq!(String::from("val3").into_bytes(), *find_matching_node("node3", &bucket).as_deref().unwrap().value);
    assert_eq!(String::from("val2").into_bytes(), *find_matching_node("node2", &bucket).as_deref().unwrap().value);
    assert_eq!(String::from("val1").into_bytes(), *find_matching_node("node1", &bucket).as_deref().unwrap().value);
    assert!(find_matching_node("nothing", &bucket).is_none());
    assert!(find_matching_node("anything", &vec![]).is_none());
}

#[test]
fn test_hash_key() {
    let value = "hi";
    let hash_key = hash_key(value);

    // 104 + 105 = 209
    assert_eq!(209, hash_key);
}

#[test]
fn test_find_matching_node() {
    let bucket = vec![
        Arc::new(HNode {
            code: 123,
            key: String::from("node1"),
            value: Arc::new(String::from("val1").into_bytes()),
        }),
        Arc::new(HNode {
            code: 123,
            key: String::from("node2"),
            value: Arc::new(String::from("val2").into_bytes()),
        }),
        Arc::new(HNode {
            code: 123,
            key: String::from("node3"),
            value: Arc::new(String::from("val3").into_bytes()),
        }),
    ];

    assert_eq!(String::from("val3").into_bytes(), *find_matching_node("node3", &bucket).as_deref().unwrap().value);
    assert_eq!(String::from("val2").into_bytes(), *find_matching_node("node2", &bucket).as_deref().unwrap().value);
    assert_eq!(String::from("val1").into_bytes(), *find_matching_node("node1", &bucket).as_deref().unwrap().value);
    assert!(find_matching_node("nothing", &bucket).is_none());
    assert!(find_matching_node("anything", &vec![]).is_none());
}

#[test]
fn test_keys() {
    let mut table = HTable::new(2);
    let key1 = String::from("Key1");
    let key2 = String::from("Key2");
    let key3 = String::from("Key3");
    let key4 = String::from("Key4");

    table.insert(&key1, b"Value1".to_vec());
    table.insert(&key2, b"Value2".to_vec());
    table.insert(&key3, b"Value3".to_vec());
    table.insert(&key4, b"Value4".to_vec());
    assert_eq!(&vec![key1.clone(), key2.clone(), key3.clone(), key4.clone()], table.keys());

    table.delete(&key4);
    assert_eq!(&vec![key1, key2, key3], table.keys());
}

#[test]
fn table_test_insert_get_delete() {
    let key = "key";
    let value = String::from("value");

    let mut table = HTable::new(2);
    assert!(table.get(key).is_none());

    table.insert(key, value.into_bytes());
    assert_eq!(String::from("value").into_bytes(), *table.get(key).unwrap());

    table.delete(key);
    assert!(table.get(key).is_none());
}

#[test]
fn table_test_insert_collision() {
    let key = "key";
    let yek = "yek";

    let mut table = HTable::new(2);

    table.insert(key, String::from("value1").into_bytes());
    table.insert(yek, String::from("value2").into_bytes());

    assert_eq!(String::from("value1").into_bytes(), *table.get(key).unwrap());
    assert_eq!(String::from("value2").into_bytes(), *table.get(yek).unwrap());
}

#[test]
fn table_test_delete_collision() {
    let key = "key";
    let yek = "yek";

    let mut table = HTable::new(2);

    table.insert(key, String::from("value1").into_bytes());
    table.insert(yek, String::from("value2").into_bytes());

    assert_eq!(String::from("value1").into_bytes(), *table.get(key).unwrap());
    assert_eq!(String::from("value2").into_bytes(), *table.get(yek).unwrap());

    table.delete(key);
    assert!(table.get(key).is_none());
    assert_eq!(String::from("value2").into_bytes(), *table.get(yek).unwrap());

    table.delete(yek);
    assert!(table.get(key).is_none());
    assert!(table.get(yek).is_none());
}

#[test]
fn colliding_keys_share_a_bucket() {
    assert_eq!(hash_key("key"), hash_key("yek"));
    assert_eq!(hash_key(""), 0);
    // 'é' is the two bytes 0xC3 0xA9.
    assert_eq!(hash_key("é"), 0xC3 + 0xA9);
}

#[test]
fn insert_replaces_value_and_keeps_one_key() {
    let mut table = HTable::new(4);
    table.insert("a", b"1".to_vec());
    table.insert("b", b"2".to_vec());
    table.insert("a", b"3".to_vec());
    assert_eq!(b"3".to_vec(), *table.get("a").unwrap());
    assert_eq!(b"2".to_vec(), *table.get("b").unwrap());
    assert_eq!(table.len(), 2);
    let mut keys = table.keys().clone();
    keys.sort();
    assert_eq!(keys, vec![String::from("a"), String::from("b")]);
}

#[test]
fn table_history_of_writes() {
    let mut table = HTable::new(1);
    table.insert("k", b"one".to_vec());
    table.delete("k");
    table.insert("j", b"two".to_vec());
    table.insert("k", b"three".to_vec());
    table.delete("absent");
    assert_eq!(b"three".to_vec(), *table.get("k").unwrap());
    assert_eq!(b"two".to_vec(), *table.get("j").unwrap());
    assert!(table.get("absent").is_none());
    assert_eq!(table.keys(), &vec![String::from("j"), String::from("k")]);
    assert_eq!(table.len(), 2);
}

#[test]
fn delete_middle_key_keeps_the_rest() {
    let mut table = HTable::new(8);
    for k in ["a", "b", "c", "d"] {
        table.insert(k, k.as_bytes().to_vec());
    }
    table.delete("b");
    assert_eq!(table.keys(), &vec![String::from("a"), String::from("d"), String::from("c")]);
    assert_eq!(table.len(), 3);
    assert!(table.get("b").is_none());
    assert_eq!(b"d".to_vec(), *table.get("d").unwrap());
}

#[test]
fn empty_key_and_empty_value() {
    let mut table = HTable::new(2);
    table.insert("", Vec::new());
    assert_eq!(Vec::<u8>::new(), *table.get("").unwrap());
    assert_eq!(table.len(), 1);
}
