use zdb::database::{is_segment_file, Database, MAX_MEMORY_USAGE};
use zdb::segment_store::{compact, load_from_file, SegmentStore};
use zdb::{Storage, StoreError};

fn persisted(db: &Database) -> (Vec<(String, Vec<u8>)>, String) {
    let files = db
        .segment_stores()
        .iter()
        .map(|s| (s.file_name().to_string(), s.as_bytes().to_vec()))
        .collect();
    (files, db.log_store().text().to_string())
}

fn reopen(db: &Database) -> Database {
    let (files, log) = persisted(db);
    Database::new(files, log).expect("Failed to reopen database")
}

#[test]
fn database_test_set_get() {
    let mut db = Database::new(Vec::new(), String::new()).expect("Failed to create database");

    let k = "key";
    let v = "value";

    match db.set(k, v) {
        Ok(_) => match db.get("key") {
            Ok(_) => match db.get("key").unwrap() {
                Some(value) => {
                    assert_eq!(value, v);
                }
                None => {
                    assert!(false, "Key not found after set");
                }
            },
            Err(e) => {
                assert!(false, "Get failed: {}", e.message());
            }
        },
        Err(e) => {
            assert!(false, "Set failed: {}", e.message());
        }
    }
}

#[test]
fn set_then_get_and_get_of_an_absent_key() {
    let mut db = Database::new(Vec::new(), String::new()).unwrap();
    db.set("key", "value").unwrap();
    assert_eq!(db.get("key").unwrap(), Some("value".to_string()));
    assert_eq!(db.get("absent").unwrap(), None);
    assert_eq!(db.log_store().text(), "key\tvalue\n");
    assert_eq!(db.segment_stores().len(), 0);
}

#[test]
fn ten_thousand_entries_flush_to_segments_and_stay_readable() {
    let mut db = Database::new(Vec::new(), String::new()).unwrap();
    let key_of = |i: usize| format!("key-{:016}", i);
    let value_of = |i: usize| format!("value-{:014}", i);
    for i in 0..10_000 {
        assert_eq!(key_of(i).len(), 20);
        assert_eq!(value_of(i).len(), 20);
        db.set(&key_of(i), &value_of(i)).unwrap();
    }
    assert!(db.segment_stores().len() >= 1);
    assert!(db.segment_stores().iter().all(|s| is_segment_file(s.file_name())));
    // 2,501 records of 40 bytes bring the table above 100,000 bytes.
    assert_eq!(db.segment_stores().len(), 3);
    assert_eq!(db.segment_stores()[0].iter().len(), 2_501);
    assert_eq!(db.memory_store().len(), 10_000 - 3 * 2_501);
    let numbers: Vec<usize> =
        db.segment_stores().iter().map(|s| s.get_sequence_number()).collect();
    assert_eq!(numbers, vec![1, 2, 3]);
    for i in 0..10_000 {
        assert_eq!(db.get(&key_of(i)).unwrap(), Some(value_of(i)));
    }
    assert_eq!(db.get("key-").unwrap(), None);

    let reopened = reopen(&db);
    for i in (0..10_000).step_by(97) {
        assert_eq!(reopened.get(&key_of(i)).unwrap(), Some(value_of(i)));
    }
}

#[test]
fn flushed_segments_compact_to_the_latest_values() {
    let mut db = Database::new(Vec::new(), String::new()).unwrap();
    db.set("a", "0").unwrap();
    db.set("b", "0").unwrap();
    db.flush("first.seg".to_string()).unwrap();
    db.set("a", "1").unwrap();
    db.set("c", "1").unwrap();
    db.flush("second.seg".to_string()).unwrap();
    let (files, _) = persisted(&db);
    let mut segments: Vec<SegmentStore> = files
        .into_iter()
        .map(|(name, bytes)| load_from_file(name, bytes).unwrap())
        .collect();
    let compacted = compact("compacted.seg".to_string(), &mut segments).unwrap();
    let expected: Vec<(String, String)> = [("a", "1"), ("b", "0"), ("c", "1")]
        .iter()
        .map(|(k, v)| (k.to_string(), v.to_string()))
        .collect();
    assert_eq!(compacted.iter(), expected);
    assert_eq!(compacted.get_sequence_number(), 1);
}

#[test]
fn a_write_survives_a_crash_through_the_log() {
    let mut db = Database::new(Vec::new(), String::new()).unwrap();
    db.set("k", "v1").unwrap();
    let (files, log) = persisted(&db);
    drop(db);
    assert!(files.is_empty());
    let reopened = Database::new(files, log).unwrap();
    assert_eq!(reopened.get("k").unwrap(), Some("v1".to_string()));
    assert_eq!(reopened.memory_store().len(), 1);
}

#[test]
fn memory_masks_segments_and_newer_segments_mask_older() {
    let mut db = Database::new(Vec::new(), String::new()).unwrap();
    db.set("k", "v1").unwrap();
    db.flush("one.seg".to_string()).unwrap();
    assert_eq!(db.memory_store().len(), 0);
    assert_eq!(db.log_store().text(), "");
    assert_eq!(db.get("k").unwrap(), Some("v1".to_string()));
    db.set("k", "v2").unwrap();
    assert_eq!(db.get("k").unwrap(), Some("v2".to_string()));
    db.flush("two.seg".to_string()).unwrap();
    assert_eq!(db.get("k").unwrap(), Some("v2".to_string()));
    assert_eq!(db.segment_stores().len(), 2);
    assert_eq!(db.segment_stores()[0].get("k").unwrap(), Some("v1".to_string()));
    assert_eq!(db.segment_stores()[1].get("k").unwrap(), Some("v2".to_string()));
    assert_eq!(db.segment_stores()[1].get_sequence_number(), 2);
}

#[test]
fn reopening_gives_the_same_answers_for_every_key_written() {
    let mut db = Database::new(Vec::new(), String::new()).unwrap();
    let mut written: Vec<String> = Vec::new();
    for round in 0..5 {
        for i in 0..40 {
            let key = format!("key{}", (i * 7 + round * 3) % 55);
            db.set(&key, &format!("round {} value {}\twith\ttabs\n", round, i)).unwrap();
            written.push(key);
        }
        if round % 2 == 0 {
            db.flush(format!("round{}.seg", round)).unwrap();
        }
    }
    let (mut files, log) = persisted(&db);
    files.reverse();
    let reopened = Database::new(files, log).unwrap();
    for key in &written {
        assert!(db.get(key).unwrap().is_some());
        assert_eq!(reopened.get(key).unwrap(), db.get(key).unwrap());
    }
    assert_eq!(reopened.get("never written").unwrap(), None);
    let numbers: Vec<usize> =
        reopened.segment_stores().iter().map(|s| s.get_sequence_number()).collect();
    assert_eq!(numbers, vec![1, 2, 3]);
}

#[test]
fn set_flushes_exactly_above_the_memory_threshold() {
    let mut db = Database::new(Vec::new(), String::new()).unwrap();
    let value = "v".repeat(MAX_MEMORY_USAGE - 1);
    db.set("k", &value).unwrap();
    assert_eq!(db.memory_store().usage(), MAX_MEMORY_USAGE);
    assert_eq!(db.segment_stores().len(), 0);
    db.set("l", "").unwrap();
    assert_eq!(db.segment_stores().len(), 1);
    assert_eq!(db.memory_store().usage(), 0);
    assert_eq!(db.memory_store().len(), 0);
    assert_eq!(db.log_store().text(), "");
    let name = db.segment_stores()[0].file_name().to_string();
    assert!(is_segment_file(&name));
    assert_eq!(name.len(), 40);
    assert_eq!(db.segment_stores()[0].get_sequence_number(), 1);
    assert_eq!(db.get("k").unwrap(), Some(value));
    assert_eq!(db.get("l").unwrap(), Some(String::new()));
}

#[test]
fn segment_names_are_drawn_afresh() {
    let mut db = Database::new(Vec::new(), String::new()).unwrap();
    let value = "v".repeat(MAX_MEMORY_USAGE);
    db.set("a", &value).unwrap();
    db.set("b", &value).unwrap();
    assert_eq!(db.segment_stores().len(), 2);
    assert_ne!(db.segment_stores()[0].file_name(), db.segment_stores()[1].file_name());
}

#[test]
fn open_reports_a_corrupt_directory() {
    let good = SegmentStore::create_from_iterator(
        "a.seg".to_string(),
        1,
        vec![("k".to_string(), "v".to_string())],
    )
    .unwrap();
    let bytes = good.as_bytes().to_vec();
    let failed = |files: Vec<(String, Vec<u8>)>, log: &str| {
        matches!(Database::new(files, log.to_string()), Err(StoreError::Corruption))
    };
    assert!(!failed(vec![("a.seg".to_string(), bytes.clone())], ""));
    // a file that is no segment
    assert!(failed(vec![("a.seg".to_string(), vec![1, 2, 3])], ""));
    // two segments with one sequence number
    assert!(failed(
        vec![("a.seg".to_string(), bytes.clone()), ("b.seg".to_string(), bytes.clone())],
        ""
    ));
    // a malformed log
    assert!(failed(Vec::new(), "no tab in this line\n"));
    assert!(failed(vec![("a.seg".to_string(), bytes)], "k\tv"));
}

#[test]
fn open_orders_segments_by_sequence_number() {
    let make = |name: &str, number: usize, value: &str| {
        let segment = SegmentStore::create_from_iterator(
            name.to_string(),
            number,
            vec![("k".to_string(), value.to_string())],
        )
        .unwrap();
        (name.to_string(), segment.as_bytes().to_vec())
    };
    let files = vec![make("c.seg", 30, "newest"), make("a.seg", 10, "oldest"), make("b.seg", 20, "middle")];
    let db = Database::new(files, "other\tx\n".to_string()).unwrap();
    let names: Vec<&str> = db.segment_stores().iter().map(|s| s.file_name()).collect();
    assert_eq!(names, vec!["a.seg", "b.seg", "c.seg"]);
    assert_eq!(db.get("k").unwrap(), Some("newest".to_string()));
    assert_eq!(db.get("other").unwrap(), Some("x".to_string()));
}

#[test]
fn flush_is_refused_where_the_sequence_number_is_spent() {
    let last = SegmentStore::create_from_iterator("last.seg".to_string(), usize::MAX, Vec::new())
        .unwrap();
    let files = vec![("last.seg".to_string(), last.as_bytes().to_vec())];
    let mut db = Database::new(files, String::new()).unwrap();
    db.set("k", "v").unwrap();
    assert_eq!(db.flush("more.seg".to_string()), Err(StoreError::Capacity));
    assert_eq!(db.segment_stores().len(), 1);
    assert_eq!(db.get("k").unwrap(), Some("v".to_string()));
    assert_eq!(db.log_store().text(), "k\tv\n");
    assert_eq!(db.memory_store().len(), 1);
}

#[test]
fn segment_file_names_end_in_seg() {
    assert!(is_segment_file("a.seg"));
    assert!(is_segment_file(".seg"));
    assert!(is_segment_file("0b1e6b1c-5c6e-4e0e-9d78-9a9f0a8e6c11.seg"));
    assert!(!is_segment_file("seg"));
    assert!(!is_segment_file("write.log"));
    assert!(!is_segment_file("a.seg.tmp"));
    assert!(!is_segment_file("a.SEG"));
    assert!(!is_segment_file(""));
    assert!(!is_segment_file("é.se"));
    assert!(is_segment_file("é.seg"));
}
