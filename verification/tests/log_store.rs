use zdb::log_store::{deserialize, record, replay, serialize, LogStore};
use zdb::{Storage, StoreError};

#[test]
fn test_serialize() {
    let x = "Hello\\\nWorld\t!\\n\n";
    let y = deserialize(&serialize(x));
    assert!(x == y, "Expected {} but got {}", x, y);
}

#[test]
fn serialize_escapes_backslash_line_feed_and_tab() {
    assert_eq!(serialize("a\\b"), "a\\\\b");
    assert_eq!(serialize("a\nb"), "a\\nb");
    assert_eq!(serialize("a\tb"), "a\\tb");
    assert_eq!(serialize(""), "");
    assert_eq!(serialize("plain text"), "plain text");
    assert_eq!(serialize("\\n"), "\\\\n");
    assert_eq!(serialize("\r"), "\r");
    assert_eq!(serialize("käse\t€"), "käse\\t€");
}

#[test]
fn deserialize_reads_escapes_back() {
    assert_eq!(deserialize("a\\\\b"), "a\\b");
    assert_eq!(deserialize("a\\nb"), "a\nb");
    assert_eq!(deserialize("a\\tb"), "a\tb");
    assert_eq!(deserialize(""), "");
    assert_eq!(deserialize("\\\\n"), "\\n");
}

#[test]
fn deserialize_of_an_unknown_escape_writes_two_backslashes() {
    assert_eq!(deserialize("a\\xb"), "a\\\\b");
    assert_eq!(deserialize("tail\\"), "tail\\\\");
}

#[test]
fn escape_round_trip_holds_for_many_texts() {
    let texts = [
        "",
        "\\",
        "\\\\",
        "\n",
        "\t",
        "\\n",
        "\\t",
        "\t\n\\",
        "a\tb\nc\\d",
        "line one\nline two\n",
        "ends with backslash\\",
        "ünïcödé \u{1F600} text\twith\ttabs",
        "\r\n",
    ];
    for text in texts {
        let written = serialize(text);
        assert!(!written.contains('\n'));
        assert!(!written.contains('\t'));
        assert_eq!(deserialize(&written), text);
    }
}

#[test]
fn record_is_key_tab_value_line_feed() {
    assert_eq!(record("key", "value"), "key\tvalue\n");
    assert_eq!(record("a\tb", "c\nd"), "a\\tb\tc\\nd\n");
    assert_eq!(record("", ""), "\t\n");
}

#[test]
fn replay_reads_records_in_write_order() {
    let records = replay("a\t1\nb\t2\na\t3\n").unwrap();
    assert_eq!(
        records,
        vec![
            ("a".to_string(), "1".to_string()),
            ("b".to_string(), "2".to_string()),
            ("a".to_string(), "3".to_string()),
        ]
    );
    assert_eq!(replay("").unwrap(), Vec::<(String, String)>::new());
    assert_eq!(
        replay("k\\tk\tv\\nv\\\\\n").unwrap(),
        vec![("k\tk".to_string(), "v\nv\\".to_string())]
    );
}

#[test]
fn replay_reports_malformed_lines() {
    assert_eq!(replay("no tab\n"), Err(StoreError::Corruption));
    assert_eq!(replay("a\tb\tc\n"), Err(StoreError::Corruption));
    assert_eq!(replay("a\tb"), Err(StoreError::Corruption));
    assert_eq!(replay("a\tb\nrest"), Err(StoreError::Corruption));
    assert_eq!(replay("\n"), Err(StoreError::Corruption));
    assert_eq!(replay("a\tb\n\n"), Err(StoreError::Corruption));
}

#[test]
fn log_store_appends_and_finds_the_latest_value() {
    let mut log = LogStore::init(String::new()).unwrap();
    assert_eq!(log.get("k").unwrap(), None);
    log.set("k", "v1").unwrap();
    log.set("other", "x").unwrap();
    log.set("k", "v2").unwrap();
    assert_eq!(log.text(), "k\tv1\nother\tx\nk\tv2\n");
    assert_eq!(log.get("k").unwrap(), Some("v2".to_string()));
    assert_eq!(log.get("other").unwrap(), Some("x".to_string()));
    assert_eq!(log.get("absent").unwrap(), None);
    assert_eq!(log.iter().unwrap().len(), 3);
}

#[test]
fn log_store_takes_up_an_existing_log() {
    let log = LogStore::init("a\t1\nb\t2\n".to_string()).unwrap();
    assert_eq!(log.get("b").unwrap(), Some("2".to_string()));
    assert_eq!(
        log.iter().unwrap(),
        vec![("a".to_string(), "1".to_string()), ("b".to_string(), "2".to_string())]
    );
    assert!(matches!(LogStore::init("torn".to_string()), Err(StoreError::Corruption)));
}

#[test]
fn log_store_flush_empties_the_log() {
    let mut log = LogStore::init("a\t1\n".to_string()).unwrap();
    log.flush();
    assert_eq!(log.text(), "");
    assert_eq!(log.get("a").unwrap(), None);
    log.set("b", "2").unwrap();
    assert_eq!(log.text(), "b\t2\n");
}

#[test]
fn log_store_keeps_keys_and_values_with_tabs_and_line_feeds() {
    let mut log = LogStore::init(String::new()).unwrap();
    log.set("a\tkey", "a\nvalue\\").unwrap();
    let reopened = LogStore::init(log.text().to_string()).unwrap();
    assert_eq!(reopened.get("a\tkey").unwrap(), Some("a\nvalue\\".to_string()));
}
