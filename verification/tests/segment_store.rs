use rand::distributions::Alphanumeric;
use rand::Rng;
use std::collections::BTreeMap;
use zdb::segment_store::{
    block_records, closest_element_before, compact, load_from_file, sort_by_sequence,
    BlockIterator, SegmentStore,
};
use zdb::StoreError;

fn random_state(count: u32) -> BTreeMap<String, String> {
    let mut entries = BTreeMap::new();
    for _ in 0..count {
        entries.insert(sample_string(1, 10), sample_string(1, 20));
    }

    entries
}

fn sample_string(min: usize, max: usize) -> String {
    let mut entropy = rand::thread_rng();
    let length: usize = entropy.gen_range(min..max);

    entropy
        .sample_iter(&Alphanumeric)
        .take(length)
        .map(char::from)
        .collect()
}

fn pairs(entries: &[(&str, &str)]) -> Vec<(String, String)> {
    entries.iter().map(|(k, v)| (k.to_string(), v.to_string())).collect()
}

#[test]
fn test_closest_element_before() {
    let elements: Vec<(String, ())> = [].to_vec();
    assert_eq!(closest_element_before("Oh no!", &elements), None);

    let elements: Vec<(String, ())> = [
        ("b", ()),
        ("c", ()),
        ("d", ()),
        ("e", ()),
        ("f", ()),
        ("g", ()),
        ("h", ()),
        ("i", ()),
    ]
    .iter()
    .map(|(k, v)| (k.to_string(), *v))
    .collect();
    assert_eq!(closest_element_before("a", &elements), None);
    assert_eq!(closest_element_before("b", &elements).unwrap(), &("b".to_string(), ()));
    assert_eq!(closest_element_before("bb", &elements).unwrap(), &("b".to_string(), ()));
    assert_eq!(closest_element_before("e", &elements).unwrap(), &("e".to_string(), ()));
    assert_eq!(closest_element_before("ee", &elements).unwrap(), &("e".to_string(), ()));
    assert_eq!(closest_element_before("i", &elements).unwrap(), &("i".to_string(), ()));
    assert_eq!(closest_element_before("ii", &elements).unwrap(), &("i".to_string(), ()));
}

#[test]
fn closest_element_before_returns_the_element_with_its_value() {
    let elements: Vec<(String, usize)> =
        vec![("b".to_string(), 8), ("d".to_string(), 100), ("f".to_string(), 250)];
    assert_eq!(closest_element_before("", &elements), None);
    assert_eq!(closest_element_before("c", &elements), Some(&("b".to_string(), 8)));
    assert_eq!(closest_element_before("d", &elements), Some(&("d".to_string(), 100)));
    assert_eq!(closest_element_before("e", &elements), Some(&("d".to_string(), 100)));
    assert_eq!(closest_element_before("zzz", &elements), Some(&("f".to_string(), 250)));
    let single: Vec<(String, usize)> = vec![("m".to_string(), 1)];
    assert_eq!(closest_element_before("a", &single), None);
    assert_eq!(closest_element_before("m", &single), Some(&("m".to_string(), 1)));
    assert_eq!(closest_element_before("z", &single), Some(&("m".to_string(), 1)));
}

#[test]
fn test_compact() {
    let mut state_0 = BTreeMap::new();
    state_0.insert("a", "0");
    state_0.insert("b", "0");

    let mut state_1 = BTreeMap::new();
    state_1.insert("a", "1");
    state_1.insert("c", "1");

    let segment_0 = SegmentStore::create_from_iterator(
        "temp_compact_0.seg".to_string(),
        0,
        state_0.iter().map(|(k, v)| (k.to_string(), v.to_string())).collect(),
    )
    .expect("Failed to create first segment!");

    let segment_1 = SegmentStore::create_from_iterator(
        "temp_compact_1.seg".to_string(),
        1,
        state_1.iter().map(|(k, v)| (k.to_string(), v.to_string())).collect(),
    )
    .expect("Failed to create second segment!");

    let compact_segment =
        compact("temp_compact_compacted.seg".to_string(), &mut vec![segment_0, segment_1])
            .expect("Failed to compact segments!");

    for (k, v) in compact_segment.iter() {
        match k.as_str() {
            "a" => assert_eq!(v, "1", "Latest segment should be represented!"),
            "b" => assert_eq!(v, "0", "Keys from segment 0 are not be present!"),
            "c" => assert_eq!(v, "1", "Keys from segment 1 are not be present!"),
            _ => panic!("Unknown key present!"),
        }
    }
}

#[test]
fn test_random_set_gets() {
    let state = random_state(100);

    let segment = SegmentStore::create_from_iterator(
        "test_temp.seg".to_string(),
        0,
        state.iter().map(|(k, v)| (k.to_string(), v.to_string())).collect(),
    )
    .unwrap();

    for (k, v) in state.clone() {
        let result = segment.get(&k).unwrap();
        assert_eq!(result.unwrap(), v.to_string());
    }

    let segment =
        load_from_file("test_temp.seg".to_string(), segment.as_bytes().to_vec()).unwrap();

    for (k, v) in state {
        let result = segment.get(&k).unwrap();
        assert_eq!(result.unwrap(), v.to_string());
    }
}

#[test]
fn test_segment_iterator() {
    let state = random_state(100);
    let segment = SegmentStore::create_from_iterator(
        "test_temp_iterator.seg".to_string(),
        0,
        state.iter().map(|(k, v)| (k.to_string(), v.to_string())).collect(),
    )
    .unwrap();

    assert_eq!(state.iter().count(), segment.iter().iter().count());

    state.iter().zip(segment.iter().into_iter()).for_each(|((k1, v1), (k2, v2))| {
        assert_eq!(k1.to_owned(), k2);
        assert_eq!(v1.to_owned(), v2);
    });
}

#[test]
fn compacted_segment_iterates_as_the_merged_state() {
    let segment_0 = SegmentStore::create_from_iterator(
        "first.seg".to_string(),
        1,
        pairs(&[("a", "0"), ("b", "0")]),
    )
    .unwrap();
    let segment_1 = SegmentStore::create_from_iterator(
        "second.seg".to_string(),
        2,
        pairs(&[("a", "1"), ("c", "1")]),
    )
    .unwrap();
    let mut segments = vec![segment_1, segment_0];
    let compacted = compact("merged.seg".to_string(), &mut segments).unwrap();
    assert_eq!(compacted.iter(), pairs(&[("a", "1"), ("b", "0"), ("c", "1")]));
    assert_eq!(compacted.get_sequence_number(), 1);
    assert_eq!(compacted.file_name(), "merged.seg");
    assert_eq!(segments[0].get_sequence_number(), 1);
    assert_eq!(segments[1].get_sequence_number(), 2);
    assert_eq!(compacted.get("a").unwrap(), Some("1".to_string()));
    assert_eq!(compacted.get("b").unwrap(), Some("0".to_string()));
    assert_eq!(compacted.get("c").unwrap(), Some("1".to_string()));
    assert_eq!(compacted.get("d").unwrap(), None);
}

#[test]
fn compaction_prefers_the_greatest_sequence_number() {
    let oldest = SegmentStore::create_from_iterator(
        "s3.seg".to_string(),
        3,
        pairs(&[("a", "old"), ("k", "old"), ("z", "old")]),
    )
    .unwrap();
    let middle = SegmentStore::create_from_iterator(
        "s5.seg".to_string(),
        5,
        pairs(&[("b", "mid"), ("k", "mid")]),
    )
    .unwrap();
    let newest = SegmentStore::create_from_iterator(
        "s9.seg".to_string(),
        9,
        pairs(&[("k", "new"), ("y", "new")]),
    )
    .unwrap();
    let mut segments = vec![middle, newest, oldest];
    let compacted = compact("out.seg".to_string(), &mut segments).unwrap();
    assert_eq!(
        compacted.iter(),
        pairs(&[("a", "old"), ("b", "mid"), ("k", "new"), ("y", "new"), ("z", "old")])
    );
    assert_eq!(compacted.get_sequence_number(), 3);
    let order: Vec<usize> = segments.iter().map(|s| s.get_sequence_number()).collect();
    assert_eq!(order, vec![3, 5, 9]);
    for key in ["a", "b", "k", "y", "z"] {
        let expected = segments
            .iter()
            .rev()
            .find_map(|s| s.get(key).unwrap())
            .unwrap();
        assert_eq!(compacted.get(key).unwrap(), Some(expected));
    }
}

#[test]
fn compaction_of_nothing_is_an_empty_segment_numbered_zero() {
    let mut segments: Vec<SegmentStore> = Vec::new();
    let compacted = compact("empty.seg".to_string(), &mut segments).unwrap();
    assert_eq!(compacted.get_sequence_number(), 0);
    assert_eq!(compacted.iter(), Vec::<(String, String)>::new());
    assert_eq!(compacted.as_bytes(), &[0u8; 8]);
}

#[test]
fn compaction_of_random_states_matches_a_map_merge() {
    let states = [random_state(60), random_state(60), random_state(60)];
    let mut segments: Vec<SegmentStore> = Vec::new();
    for (number, state) in states.iter().enumerate() {
        segments.push(
            SegmentStore::create_from_iterator(
                format!("{}.seg", number),
                number + 1,
                state.iter().map(|(k, v)| (k.clone(), v.clone())).collect(),
            )
            .unwrap(),
        );
    }
    segments.reverse();
    let compacted = compact("all.seg".to_string(), &mut segments).unwrap();
    let mut expected = BTreeMap::new();
    for state in states.iter() {
        for (k, v) in state {
            expected.insert(k.clone(), v.clone());
        }
    }
    let expected: Vec<(String, String)> = expected.into_iter().collect();
    assert_eq!(compacted.iter(), expected);
}

#[test]
fn sort_by_sequence_keeps_the_order_of_equal_numbers() {
    let make = |name: &str, number: usize| {
        SegmentStore::create_from_iterator(name.to_string(), number, Vec::new()).unwrap()
    };
    let mut segments = vec![make("c", 2), make("a", 1), make("d", 2), make("b", 1), make("e", 0)];
    sort_by_sequence(&mut segments);
    let names: Vec<&str> = segments.iter().map(|s| s.file_name()).collect();
    assert_eq!(names, vec!["e", "a", "b", "c", "d"]);
}

#[test]
fn segment_file_is_sequence_number_then_blocks() {
    let segment = SegmentStore::create_from_iterator(
        "one.seg".to_string(),
        7,
        pairs(&[("k", "v"), ("kk", "vv")]),
    )
    .unwrap();
    let mut expected: Vec<u8> = vec![7, 0, 0, 0, 0, 0, 0, 0];
    expected.extend([1, 0, 0, 0, 0, 0, 0, 0, b'k']);
    expected.extend([38, 0, 0, 0, 0, 0, 0, 0]);
    expected.extend([1, 0, 0, 0, 0, 0, 0, 0, b'k']);
    expected.extend([1, 0, 0, 0, 0, 0, 0, 0, b'v']);
    expected.extend([2, 0, 0, 0, 0, 0, 0, 0, b'k', b'k']);
    expected.extend([2, 0, 0, 0, 0, 0, 0, 0, b'v', b'v']);
    assert_eq!(segment.as_bytes(), expected.as_slice());
    assert_eq!(segment.block_count(), 1);
    assert_eq!(segment.first_key_of_block(0), Some("k"));
    assert_eq!(segment.first_key_of_block(1), None);
    assert_eq!(segment.get_sequence_number(), 7);
}

#[test]
fn blocks_close_once_the_payload_is_above_the_block_size() {
    let value = "v".repeat(984);
    let entries: Vec<(String, String)> =
        (0..25).map(|i| (format!("key{:05}", i), value.clone())).collect();
    let segment =
        SegmentStore::create_from_iterator("blocks.seg".to_string(), 1, entries.clone()).unwrap();
    // Each record takes 8 + 8 + 8 + 984 = 1008 bytes: ten of them stay
    // above 10,000 bytes, so a block closes with its tenth record.
    assert_eq!(segment.block_count(), 3);
    assert_eq!(segment.first_key_of_block(0), Some("key00000"));
    assert_eq!(segment.first_key_of_block(1), Some("key00010"));
    assert_eq!(segment.first_key_of_block(2), Some("key00020"));
    assert_eq!(segment.as_bytes().len(), 8 + 25 * 1008 + 3 * (16 + 8));
    assert_eq!(segment.iter(), entries);
    for (key, stored) in &entries {
        assert_eq!(segment.get(key).unwrap().as_ref(), Some(stored));
    }
    assert_eq!(segment.get("key00009x").unwrap(), None);
    assert_eq!(segment.get("key").unwrap(), None);
    assert_eq!(segment.get("key99999").unwrap(), None);

    let loaded = load_from_file("blocks.seg".to_string(), segment.as_bytes().to_vec()).unwrap();
    assert_eq!(loaded.block_count(), 3);
    assert_eq!(loaded.first_key_of_block(1), Some("key00010"));
    assert_eq!(loaded.iter(), entries);
    assert_eq!(loaded.get("key00017").unwrap(), Some(value.clone()));
    assert_eq!(loaded.get_sequence_number(), 1);
}

#[test]
fn segment_built_from_alpha_is_found_after_loading() {
    let segment = SegmentStore::create_from_iterator(
        "alpha.seg".to_string(),
        4,
        pairs(&[("alpha", "first"), ("beta", "second"), ("gamma", "third")]),
    )
    .unwrap();
    let loaded = load_from_file("alpha.seg".to_string(), segment.as_bytes().to_vec()).unwrap();
    assert_eq!(loaded.get("alpha").unwrap(), Some("first".to_string()));
    assert_eq!(loaded.first_key_of_block(0), Some("alpha"));
    assert_eq!(loaded.file_name(), "alpha.seg");
    assert_eq!(loaded.get_sequence_number(), 4);
}

#[test]
fn empty_segment_has_no_records() {
    let segment =
        SegmentStore::create_from_iterator("none.seg".to_string(), 3, Vec::new()).unwrap();
    assert_eq!(segment.block_count(), 0);
    assert_eq!(segment.iter(), Vec::<(String, String)>::new());
    assert_eq!(segment.get("any").unwrap(), None);
    let loaded = load_from_file("none.seg".to_string(), segment.as_bytes().to_vec()).unwrap();
    assert_eq!(loaded.iter(), Vec::<(String, String)>::new());
    assert_eq!(loaded.get_sequence_number(), 3);
}

#[test]
fn segment_keeps_text_that_is_not_ascii() {
    let mut entries = pairs(&[("é", "€uro"), ("z", "last ascii"), ("\u{1F600}", "smile")]);
    entries.sort();
    let segment =
        SegmentStore::create_from_iterator("text.seg".to_string(), 1, entries.clone()).unwrap();
    let loaded = load_from_file("text.seg".to_string(), segment.as_bytes().to_vec()).unwrap();
    assert_eq!(loaded.iter(), entries);
    assert_eq!(loaded.get("é").unwrap(), Some("€uro".to_string()));
    assert_eq!(loaded.get("e").unwrap(), None);
}

#[test]
fn load_reports_corrupt_files() {
    let segment = SegmentStore::create_from_iterator(
        "good.seg".to_string(),
        1,
        pairs(&[("a", "1"), ("b", "2")]),
    )
    .unwrap();
    let good = segment.as_bytes().to_vec();
    assert!(load_from_file("good.seg".to_string(), good.clone()).is_ok());

    let corrupt = |bytes: Vec<u8>| {
        matches!(load_from_file("bad.seg".to_string(), bytes), Err(StoreError::Corruption))
    };
    // no complete sequence number
    assert!(corrupt(vec![1, 2, 3]));
    assert!(corrupt(Vec::new()));
    // cut short in the middle of a block
    assert!(corrupt(good[..good.len() - 1].to_vec()));
    assert!(corrupt(good[..12].to_vec()));
    // bytes behind the last block
    let mut trailing = good.clone();
    trailing.push(0);
    assert!(corrupt(trailing));
    // a key that is not UTF-8
    let mut not_text = good.clone();
    let at = not_text.len() - 10;
    assert_eq!(not_text[at], b'b');
    not_text[at] = 0xff;
    assert!(corrupt(not_text));
    // the first key of the block differs from the key of its first record
    let mut other_key = good.clone();
    assert_eq!(other_key[16], b'a');
    other_key[16] = b'0';
    assert!(corrupt(other_key));
    // keys out of order
    let mut unordered = good.clone();
    let at = unordered.len() - 10;
    unordered[at] = b'a';
    assert!(corrupt(unordered));
    // a block without records
    let mut empty_block = vec![1u8, 0, 0, 0, 0, 0, 0, 0];
    empty_block.extend([1, 0, 0, 0, 0, 0, 0, 0, b'a']);
    empty_block.extend([0, 0, 0, 0, 0, 0, 0, 0]);
    assert!(corrupt(empty_block));
}

#[test]
fn block_iterator_yields_the_records_of_a_payload() {
    let segment = SegmentStore::create_from_iterator(
        "it.seg".to_string(),
        1,
        pairs(&[("a", "1"), ("b", "22")]),
    )
    .unwrap();
    let payload = segment.as_bytes()[8 + 9 + 8..].to_vec();
    let mut iterator = BlockIterator::new(&payload);
    assert_eq!(iterator.next(), Some(Ok(("a".to_string(), "1".to_string()))));
    assert_eq!(iterator.next(), Some(Ok(("b".to_string(), "22".to_string()))));
    assert_eq!(iterator.next(), None);
    assert_eq!(iterator.next(), None);
    assert_eq!(block_records(&payload).unwrap(), pairs(&[("a", "1"), ("b", "22")]));
}

#[test]
fn block_iterator_reports_a_corrupt_payload_once() {
    let payload = vec![1u8, 0, 0, 0, 0, 0, 0, 0, b'a', 9, 9];
    let mut iterator = BlockIterator::new(&payload);
    assert_eq!(iterator.next(), Some(Err(StoreError::Corruption)));
    assert_eq!(iterator.next(), None);
    assert_eq!(block_records(&payload), Err(StoreError::Corruption));

    let mut not_text = vec![1u8, 0, 0, 0, 0, 0, 0, 0, 0xff];
    not_text.extend([1, 0, 0, 0, 0, 0, 0, 0, b'v']);
    let mut iterator = BlockIterator::new(&not_text);
    assert_eq!(iterator.next(), Some(Err(StoreError::Corruption)));
    assert_eq!(iterator.next(), None);
}

#[test]
fn create_refuses_a_value_too_long_for_a_frame() {
    let huge = "v".repeat(zdb::codec::MAX_FRAME_BYTES + 1);
    let result = SegmentStore::create_from_iterator(
        "huge.seg".to_string(),
        1,
        vec![("k".to_string(), huge)],
    );
    assert!(matches!(result, Err(StoreError::Oversized)));
}

#[test]
fn create_refuses_a_block_too_long_for_a_frame() {
    // Each part fits in a frame, but the payload of the block does not.
    let big = "v".repeat(zdb::codec::MAX_FRAME_BYTES - 8);
    let result = SegmentStore::create_from_iterator(
        "big.seg".to_string(),
        1,
        vec![("k".to_string(), big)],
    );
    assert!(matches!(result, Err(StoreError::Oversized)));
}
