use rand::distributions::Alphanumeric;
use rand::Rng;
use zdb::codec::{compress, decode, decompress, encode, read_entry, Reader, MAX_FRAME_BYTES};
use zdb::StoreError;

fn sample_string(min: usize, max: usize) -> String {
    let mut entropy = rand::thread_rng();
    let length: usize = entropy.gen_range(min..max);

    entropy
        .sample_iter(&Alphanumeric)
        .take(length)
        .map(char::from)
        .collect()
}

#[test]
fn test_encode_decode() {
    let input = sample_string(1, 1000);
    let encoded = encode(input.as_bytes()).unwrap();
    let mut reader = Reader::new(encoded.as_slice());
    let decoded = decode(&mut reader).unwrap();

    assert_eq!(input, std::str::from_utf8(decoded.as_slice()).unwrap());
}

#[test]
fn encode_writes_little_endian_length_then_bytes() {
    let encoded = encode(b"abc").unwrap();
    assert_eq!(encoded, vec![3, 0, 0, 0, 0, 0, 0, 0, b'a', b'b', b'c']);
}

#[test]
fn encode_of_empty_input_is_a_bare_length() {
    let encoded = encode(b"").unwrap();
    assert_eq!(encoded, vec![0u8; 8]);
    let mut reader = Reader::new(encoded.as_slice());
    assert_eq!(decode(&mut reader).unwrap(), Vec::<u8>::new());
    assert!(reader.is_at_end());
}

#[test]
fn decode_round_trips_arbitrary_bytes() {
    let inputs: Vec<Vec<u8>> = vec![
        vec![],
        vec![0],
        vec![255, 0, 128, 10, 9, 92],
        (0..=255u8).collect(),
        vec![7; 20_000],
    ];
    for input in inputs {
        let encoded = encode(&input).unwrap();
        assert_eq!(encoded.len(), input.len() + 8);
        let mut reader = Reader::new(encoded.as_slice());
        assert_eq!(decode(&mut reader).unwrap(), input);
        assert_eq!(reader.position(), encoded.len());
    }
}

#[test]
fn decode_leaves_what_follows_the_frame() {
    let mut bytes = encode(b"key").unwrap();
    bytes.extend(encode(b"value").unwrap());
    bytes.push(42);
    let mut reader = Reader::new(bytes.as_slice());
    assert_eq!(decode(&mut reader).unwrap(), b"key".to_vec());
    assert_eq!(reader.position(), 11);
    assert_eq!(decode(&mut reader).unwrap(), b"value".to_vec());
    assert_eq!(reader.position(), 24);
    assert!(!reader.is_at_end());
    assert_eq!(decode(&mut reader), Err(StoreError::Corruption));
    assert_eq!(reader.position(), 24);
}

#[test]
fn decode_reports_a_short_length_prefix() {
    let bytes = vec![1u8, 0, 0];
    let mut reader = Reader::new(bytes.as_slice());
    assert_eq!(decode(&mut reader), Err(StoreError::Corruption));
    assert_eq!(reader.position(), 0);
}

#[test]
fn decode_reports_a_short_payload() {
    let mut bytes = encode(b"abcdef").unwrap();
    bytes.truncate(10);
    let mut reader = Reader::new(bytes.as_slice());
    assert_eq!(decode(&mut reader), Err(StoreError::Corruption));
    assert_eq!(reader.position(), 0);
}

#[test]
fn decode_reports_an_implausible_length() {
    let mut bytes = ((MAX_FRAME_BYTES as u64) + 1).to_le_bytes().to_vec();
    bytes.extend(vec![0u8; 16]);
    let mut reader = Reader::new(bytes.as_slice());
    assert_eq!(decode(&mut reader), Err(StoreError::Corruption));

    let bytes = u64::MAX.to_le_bytes().to_vec();
    let mut reader = Reader::new(bytes.as_slice());
    assert_eq!(decode(&mut reader), Err(StoreError::Corruption));
}

#[test]
fn encode_refuses_more_than_a_frame_holds() {
    let at_limit = vec![0u8; MAX_FRAME_BYTES];
    let encoded = encode(&at_limit).unwrap();
    assert_eq!(encoded.len(), MAX_FRAME_BYTES + 8);
    let mut reader = Reader::new(encoded.as_slice());
    assert_eq!(decode(&mut reader).unwrap().len(), MAX_FRAME_BYTES);

    let above = vec![0u8; MAX_FRAME_BYTES + 1];
    assert_eq!(encode(&above), Err(StoreError::Oversized));
}

#[test]
fn read_entry_reads_a_key_and_a_value() {
    let mut bytes = encode(b"k").unwrap();
    bytes.extend(encode(b"some value").unwrap());
    let mut reader = Reader::new(bytes.as_slice());
    let (key, value) = read_entry(&mut reader).unwrap();
    assert_eq!(key, b"k".to_vec());
    assert_eq!(value, b"some value".to_vec());
    assert!(reader.is_at_end());
}

#[test]
fn read_entry_without_a_value_leaves_the_cursor() {
    let bytes = encode(b"k").unwrap();
    let mut reader = Reader::new(bytes.as_slice());
    assert_eq!(read_entry(&mut reader), Err(StoreError::Corruption));
    assert_eq!(reader.position(), 0);
}

#[test]
fn reader_at_skips_a_prefix() {
    let bytes = vec![9u8, 9, 3, 0, 0, 0, 0, 0, 0, 0, 1, 2, 3];
    let mut reader = Reader::at(bytes.as_slice(), 2);
    assert_eq!(reader.position(), 2);
    assert_eq!(decode(&mut reader).unwrap(), vec![1, 2, 3]);
    let reader = Reader::at(bytes.as_slice(), 100);
    assert_eq!(reader.position(), bytes.len());
    assert!(reader.is_at_end());
}

#[test]
fn compress_and_decompress_are_inverses() {
    let payload = vec![1u8, 2, 3, 4, 5];
    assert_eq!(compress(&payload), payload.as_slice());
    assert_eq!(decompress(compress(&payload)), payload.as_slice());
    assert_eq!(compress(decompress(&payload)).len(), payload.len());
}

#[test]
fn errors_say_what_went_wrong() {
    assert_eq!(StoreError::Corruption.message(), "stored data is corrupt");
    assert_eq!(StoreError::Oversized.message(), "a byte string is too long for a frame");
    assert_eq!(StoreError::Capacity.message(), "a byte count does not fit in a machine word");
}
