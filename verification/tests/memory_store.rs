use zdb::memory_store::MemoryStore;
use zdb::Storage;

#[test]
fn memory_store_test_set_get() {
    let mut store = MemoryStore::new();

    let k = "key";
    let v = "value";

    match store.set(k, v) {
        Ok(_) => match store.get("key") {
            Ok(_) => match store.get("key").unwrap() {
                Some(value) => {
                    assert_eq!(value, v);
                }
                None => {
                    assert!(false, "Key not found after set");
                }
            },
            Err(e) => {
                assert!(false, "Get failed: {}", e.message());
            }
        },
        Err(e) => {
            assert!(false, "Set failed: {}", e.message());
        }
    }
}

#[test]
fn test_memory_usage() {
    let mut store = MemoryStore::new();

    let k = "key";
    let v = "value";

    let expected_memory_usage = k.len() + v.len();

    assert!(store.usage() == 0, "Memory usage should start empty.");
    assert!(store.set(k, v).is_ok(), "Set failed");
    assert!(
        store.usage() == expected_memory_usage,
        "Memory usage after first set is not correct! expected: {} got: {}",
        expected_memory_usage,
        store.usage()
    );

    let v = "a different value ";

    let expected_memory_usage = k.len() + v.len();

    assert!(store.set(k, v).is_ok(), "Set failed");
    assert!(
        store.usage() == expected_memory_usage,
        "Memory usage after second set is not correct! expected: {} got: {}",
        expected_memory_usage,
        store.usage()
    );
}

#[test]
fn memory_store_get_of_an_absent_key_is_none() {
    let mut store = MemoryStore::new();
    assert_eq!(store.get("absent").unwrap(), None);
    store.set("present", "1").unwrap();
    assert_eq!(store.get("absent").unwrap(), None);
    assert_eq!(store.get("presen").unwrap(), None);
    assert_eq!(store.get("present ").unwrap(), None);
}

#[test]
fn memory_store_iterates_in_ascending_key_order() {
    let mut store = MemoryStore::new();
    for key in ["m", "b", "zz", "a", "z", "ab", ""] {
        store.set(key, key).unwrap();
    }
    let keys: Vec<String> = store.iter().into_iter().map(|(k, _)| k).collect();
    assert_eq!(keys, vec!["", "a", "ab", "b", "m", "z", "zz"]);
    assert_eq!(store.len(), 7);
}

#[test]
fn memory_store_orders_keys_by_their_bytes() {
    let mut store = MemoryStore::new();
    for key in ["é", "z", "Z", "a", "€", "\u{1F600}"] {
        store.set(key, "x").unwrap();
    }
    let keys: Vec<String> = store.iter().into_iter().map(|(k, _)| k).collect();
    let mut expected: Vec<String> =
        ["é", "z", "Z", "a", "€", "\u{1F600}"].iter().map(|k| k.to_string()).collect();
    expected.sort();
    assert_eq!(keys, expected);
}

#[test]
fn memory_store_overwrite_replaces_the_value() {
    let mut store = MemoryStore::new();
    store.set("k", "first").unwrap();
    store.set("k", "second").unwrap();
    assert_eq!(store.get("k").unwrap(), Some("second".to_string()));
    assert_eq!(store.len(), 1);
    assert_eq!(store.iter(), vec![("k".to_string(), "second".to_string())]);
}

#[test]
fn memory_store_usage_is_the_sum_over_current_entries() {
    let mut store = MemoryStore::new();
    store.set("alpha", "1").unwrap();
    assert_eq!(store.usage(), 6);
    store.set("beta", "22").unwrap();
    assert_eq!(store.usage(), 12);
    store.set("alpha", "4444").unwrap();
    assert_eq!(store.usage(), 15);
    store.set("alpha", "").unwrap();
    assert_eq!(store.usage(), 11);
    store.set("é", "€").unwrap();
    assert_eq!(store.usage(), 16);
    let total: usize = store.iter().iter().map(|(k, v)| k.len() + v.len()).sum();
    assert_eq!(store.usage(), total);
}
