use cryptoxide::digest::Digest;
use storage_example::{
    clear_storage, delete_string, derive_key, get_string, set_string, update_string, StorageError,
    Store,
};

#[test]
fn get() {
    let mut store = Store::new();
    let value = "value";
    let item = set_string(&mut store, value.to_string()).unwrap();
    let key = item.key;
    let obtained_value: String = get_string(&store, key).unwrap();
    assert_eq!(value, obtained_value)
}

#[test]
fn set_and_length() {
    let mut store = Store::new();
    clear_storage(&mut store);
    assert_eq!(store.length(), 0);
    let _ = set_string(&mut store, "value".to_string()).unwrap();
    assert_eq!(store.length(), 1);
    clear_storage(&mut store);
    assert_eq!(store.length(), 0);
}

#[test]
fn delete() {
    let mut store = Store::new();
    let value = "value";
    let item = set_string(&mut store, value.to_string()).unwrap();
    let key = item.key;
    assert_eq!(store.length(), 1);
    delete_string(&mut store, key);
    assert_eq!(store.length(), 0);
}

#[test]
fn derive_key_is_deterministic() {
    let k1 = derive_key("storage_example", "value");
    let k2 = derive_key("storage_example", "value");
    assert_eq!(k1, k2);
}

#[test]
fn written_key_is_keccak_of_namespace_and_plaintext() {
    let mut store = Store::new();
    let item = set_string(&mut store, "value".to_string()).unwrap();
    assert_eq!(item.data, "value");
    let mut ctx = cryptoxide::sha3::Keccak256::new();
    ctx.input("storage_examplevalue".as_bytes());
    let expected = ctx.result_str();
    assert_eq!(item.key, expected);
    assert_ne!(item.key, "storage_examplevalue");
    assert_ne!(item.key, "value");
    assert_eq!(item.key.len(), 64);
    assert!(item.key.chars().all(|c| c.is_ascii_hexdigit() && !c.is_ascii_uppercase()));
}

#[test]
fn round_trip_through_written_key() {
    let mut store = Store::new();
    for value in ["", "value", "another value", "\u{00e9}\u{6f22}"] {
        let item = set_string(&mut store, value.to_string()).unwrap();
        assert_eq!(get_string(&store, item.key).unwrap(), value);
    }
}

#[test]
fn writes_of_distinct_plaintexts_are_isolated() {
    let mut store = Store::new();
    let item1 = set_string(&mut store, "s1".to_string()).unwrap();
    let item2 = set_string(&mut store, "s2".to_string()).unwrap();
    assert_ne!(item1.key, item2.key);
    assert_eq!(store.length(), 2);
    assert_eq!(get_string(&store, item1.key).unwrap(), "s1");
    assert_eq!(get_string(&store, item2.key).unwrap(), "s2");
}

#[test]
fn rewriting_the_same_plaintext_overwrites() {
    let mut store = Store::new();
    let item1 = set_string(&mut store, "value".to_string()).unwrap();
    let item2 = set_string(&mut store, "value".to_string()).unwrap();
    assert_eq!(item1.key, item2.key);
    assert_eq!(store.length(), 1);
}

#[test]
fn delete_is_idempotent() {
    let mut store = Store::new();
    let item = set_string(&mut store, "value".to_string()).unwrap();
    let key = item.key;
    delete_string(&mut store, key.clone());
    assert_eq!(store.length(), 0);
    delete_string(&mut store, key.clone());
    assert_eq!(store.length(), 0);
    delete_string(&mut store, "never bound".to_string());
    assert_eq!(store.length(), 0);
}

#[test]
fn clear_empties_a_populated_store() {
    let mut store = Store::new();
    let _ = set_string(&mut store, "one".to_string()).unwrap();
    let _ = set_string(&mut store, "two".to_string()).unwrap();
    let _ = update_string(&mut store, "three".to_string(), "3".to_string()).unwrap();
    assert_eq!(store.length(), 3);
    clear_storage(&mut store);
    assert_eq!(store.length(), 0);
}

#[test]
fn update_honors_an_arbitrary_key() {
    let mut store = Store::new();
    update_string(&mut store, "mykey".to_string(), "v1".to_string()).unwrap();
    assert_eq!(get_string(&store, "mykey".to_string()).unwrap(), "v1");
    assert_eq!(store.length(), 1);
    update_string(&mut store, "mykey".to_string(), "v2".to_string()).unwrap();
    assert_eq!(get_string(&store, "mykey".to_string()).unwrap(), "v2");
    assert_eq!(store.length(), 1);
}

#[test]
fn update_then_read_at_a_derived_key() {
    let mut store = Store::new();
    let item = set_string(&mut store, "value".to_string()).unwrap();
    update_string(&mut store, item.key.clone(), "replacement".to_string()).unwrap();
    assert_eq!(get_string(&store, item.key).unwrap(), "replacement");
    assert_eq!(store.length(), 1);
}

#[test]
fn reading_an_absent_key_is_not_found() {
    let store = Store::new();
    assert_eq!(
        get_string(&store, "absent".to_string()),
        Err(StorageError::NotFound)
    );
}

#[test]
fn reading_a_deleted_key_is_not_found() {
    let mut store = Store::new();
    let item = set_string(&mut store, "value".to_string()).unwrap();
    let key = item.key;
    delete_string(&mut store, key.clone());
    assert_eq!(store.length(), 0);
    assert_eq!(get_string(&store, key), Err(StorageError::NotFound));
}
