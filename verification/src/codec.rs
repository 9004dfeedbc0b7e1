//! Length-prefixed framing of byte strings.
//!
//! A frame is the length of a byte string as eight little-endian bytes,
//! followed by the bytes themselves.

use vstd::prelude::*;
use vstd::bytes::lemma_auto_spec_u64_to_from_le_bytes;
use vstd::bytes::spec_u64_from_le_bytes;
use vstd::bytes::spec_u64_to_le_bytes;
use vstd::bytes::u64_from_le_bytes;
use vstd::bytes::u64_to_le_bytes;
use vstd::slice::slice_subrange;
use vstd::slice::slice_to_vec;
use crate::StoreError;

verus! {

/// The longest byte string that a single frame may carry: 64 MiB.
pub const MAX_FRAME_BYTES: usize = 67_108_864;

/// The number of bytes of a frame's length prefix.
pub const LENGTH_PREFIX_BYTES: usize = 8;

/// The frame of `payload`: its length in eight little-endian bytes, then the
/// payload.
pub open spec fn frame(payload: Seq<u8>) -> Seq<u8> {
    spec_u64_to_le_bytes(payload.len() as u64) + payload
}

/// Reads one frame from the front of `input`: the payload and the bytes that
/// follow the frame, or `None` where `input` does not start with a complete
/// frame of at most `MAX_FRAME_BYTES` bytes of payload.
pub open spec fn parse_frame(input: Seq<u8>) -> Option<(Seq<u8>, Seq<u8>)> {
    if input.len() < 8 {
        None
    } else {
        let length = spec_u64_from_le_bytes(input.subrange(0, 8));
        if length > MAX_FRAME_BYTES || input.len() - 8 < length {
            None
        } else {
            Some((input.subrange(8, 8 + length), input.subrange(8 + length, input.len() as int)))
        }
    }
}

/// Reading the frame of a byte string gives the byte string back, and leaves
/// what followed the frame.
pub proof fn lemma_parse_frame_of_frame(payload: Seq<u8>, rest: Seq<u8>)
    requires
        payload.len() <= MAX_FRAME_BYTES,
    ensures
        parse_frame(frame(payload) + rest) == Some((payload, rest)),
{
    lemma_auto_spec_u64_to_from_le_bytes();
    let input = frame(payload) + rest;
    let prefix = spec_u64_to_le_bytes(payload.len() as u64);
    assert(input.subrange(0, 8) =~= prefix);
}

/// A frame that was read is the frame of its payload: the input is that
/// frame followed by the rest.
pub proof fn lemma_parse_frame_inverse(input: Seq<u8>)
    ensures
        parse_frame(input) matches Some((payload, rest)) ==> (input == frame(payload) + rest
            && payload.len() <= MAX_FRAME_BYTES),
{
    lemma_auto_spec_u64_to_from_le_bytes();
}

/// A cursor over a byte string that is read front to back.
pub struct Reader<'a> {
    bytes: &'a [u8],
    position: usize,
}

impl<'a> Reader<'a> {
    /// The cursor never stands behind the end of its bytes.
    pub closed spec fn well_formed(&self) -> bool {
        self.position <= self.bytes@.len()
    }

    /// All the bytes under the cursor, read or not.
    pub closed spec fn source(&self) -> Seq<u8> {
        self.bytes@
    }

    /// The number of bytes already read.
    pub closed spec fn offset(&self) -> int {
        self.position as int
    }

    /// The bytes not yet read.
    pub open spec fn remaining(&self) -> Seq<u8> {
        self.source().subrange(self.offset(), self.source().len() as int)
    }

    /// A cursor at the start of `bytes`.
    pub fn new(bytes: &'a [u8]) -> (reader: Reader<'a>)
        ensures
            reader.well_formed(),
            reader.source() == bytes@,
            reader.offset() == 0,
    {
        Reader { bytes, position: 0 }
    }

    /// A cursor that has skipped the first `offset` bytes of `bytes`, or all
    /// of them where there are fewer.
    pub fn at(bytes: &'a [u8], offset: usize) -> (reader: Reader<'a>)
        ensures
            reader.well_formed(),
            reader.source() == bytes@,
            reader.offset() == if offset <= bytes@.len() { offset as int } else { bytes@.len() as int },
    {
        let position = if offset <= bytes.len() { offset } else { bytes.len() };
        Reader { bytes, position }
    }

    /// The number of bytes already read.
    pub fn position(&self) -> (position: usize)
        requires
            self.well_formed(),
        ensures
            position == self.offset(),
            position <= self.source().len(),
    {
        self.position
    }

    /// Whether every byte has been read.
    pub fn is_at_end(&self) -> (at_end: bool)
        requires
            self.well_formed(),
        ensures
            at_end == (self.remaining().len() == 0),
    {
        self.position >= self.bytes.len()
    }
}

/// Frames a byte string: eight bytes of little-endian length, then the bytes.
/// A byte string of more than `MAX_FRAME_BYTES` bytes is refused.
pub fn encode(input_string: &[u8]) -> (result: Result<Vec<u8>, StoreError>)
    ensures
        input_string@.len() <= MAX_FRAME_BYTES ==> (result matches Ok(entry) && entry@ == frame(
            input_string@,
        )),
        input_string@.len() > MAX_FRAME_BYTES ==> result == Err::<Vec<u8>, StoreError>(
            StoreError::Oversized,
        ),
{
    if input_string.len() > MAX_FRAME_BYTES {
        return Err(StoreError::Oversized);
    }
    let mut entry = u64_to_le_bytes(input_string.len() as u64);
    let mut payload = slice_to_vec(input_string);
    entry.append(&mut payload);
    Ok(entry)
}

/// Reads one frame at the cursor and moves the cursor behind it.  Where the
/// bytes at the cursor are no complete frame, or the frame announces more than
/// `MAX_FRAME_BYTES` bytes, the cursor stays and the data is reported corrupt.
pub fn decode(reader: &mut Reader) -> (result: Result<Vec<u8>, StoreError>)
    requires
        old(reader).well_formed(),
    ensures
        final(reader).well_formed(),
        final(reader).source() == old(reader).source(),
        match parse_frame(old(reader).remaining()) {
            Some((payload, rest)) => result matches Ok(buffer) && buffer@ == payload && final(reader).remaining() == rest && final(reader).offset() == old(reader).offset() + 8
                + payload.len(),
            None => result == Err::<Vec<u8>, StoreError>(StoreError::Corruption) && final(reader).offset() == old(reader).offset(),
        },
{
    let total = reader.bytes.len();
    let start = reader.position;
    if total - start < LENGTH_PREFIX_BYTES {
        return Err(StoreError::Corruption);
    }
    let prefix = slice_subrange(reader.bytes, start, start + LENGTH_PREFIX_BYTES);
    let length = u64_from_le_bytes(prefix);
    assert(prefix@ =~= reader.remaining().subrange(0, 8));
    let available: u64 = (total - start - LENGTH_PREFIX_BYTES) as u64;
    if length > MAX_FRAME_BYTES as u64 || available < length {
        return Err(StoreError::Corruption);
    }
    let begin = start + LENGTH_PREFIX_BYTES;
    let end = begin + length as usize;
    let buffer = slice_to_vec(slice_subrange(reader.bytes, begin, end));
    reader.position = end;
    Ok(buffer)
}

/// Reads two frames from the front of `input`, a key and the value that
/// belongs to it: the pair and the bytes that follow, or `None` where `input`
/// does not start with two complete frames.
pub open spec fn parse_entry(input: Seq<u8>) -> Option<((Seq<u8>, Seq<u8>), Seq<u8>)> {
    match parse_frame(input) {
        Some((key, after_key)) => match parse_frame(after_key) {
            Some((value, rest)) => Some(((key, value), rest)),
            None => None,
        },
        None => None,
    }
}

/// The two frames of a key and its value, one after the other.
pub open spec fn entry_frames(key: Seq<u8>, value: Seq<u8>) -> Seq<u8> {
    frame(key) + frame(value)
}

/// Reading the frames of a key and a value gives the two back, and leaves
/// what followed them.
pub proof fn lemma_parse_entry_of_frames(key: Seq<u8>, value: Seq<u8>, rest: Seq<u8>)
    requires
        key.len() <= MAX_FRAME_BYTES,
        value.len() <= MAX_FRAME_BYTES,
    ensures
        parse_entry(entry_frames(key, value) + rest) == Some(((key, value), rest)),
{
    assert(entry_frames(key, value) + rest =~= frame(key) + (frame(value) + rest));
    lemma_parse_frame_of_frame(key, frame(value) + rest);
    lemma_parse_frame_of_frame(value, rest);
}

/// An entry that was read is made of the frames of its key and value: the
/// input is those frames followed by the rest.
pub proof fn lemma_parse_entry_inverse(input: Seq<u8>)
    ensures
        parse_entry(input) matches Some(((key, value), rest)) ==> (input == entry_frames(
            key,
            value,
        ) + rest && key.len() <= MAX_FRAME_BYTES && value.len() <= MAX_FRAME_BYTES),
{
    lemma_parse_frame_inverse(input);
    if let Some((key, after_key)) = parse_frame(input) {
        lemma_parse_frame_inverse(after_key);
    }
}

/// Reads a key frame and a value frame at the cursor and moves the cursor
/// behind them.  Where the bytes at the cursor are not two complete frames,
/// the cursor stays and the data is reported corrupt.
pub fn read_entry(reader: &mut Reader) -> (result: Result<(Vec<u8>, Vec<u8>), StoreError>)
    requires
        old(reader).well_formed(),
    ensures
        final(reader).well_formed(),
        final(reader).source() == old(reader).source(),
        match parse_entry(old(reader).remaining()) {
            Some(((key, value), rest)) => result matches Ok(entry) && entry.0@ == key && entry.1@
                == value && final(reader).remaining() == rest && final(reader).offset() == old(reader).offset() + 16 + key.len() + value.len(),
            None => result == Err::<(Vec<u8>, Vec<u8>), StoreError>(StoreError::Corruption)
                && final(reader).offset() == old(reader).offset(),
        },
{
    let start = reader.position;
    let key = match decode(reader) {
        Ok(key) => key,
        Err(error) => {
            return Err(error);
        },
    };
    let value = match decode(reader) {
        Ok(value) => value,
        Err(error) => {
            reader.position = start;
            return Err(error);
        },
    };
    Ok((key, value))
}

/// Prepares a block's payload for storage.  No compression is applied: the
/// payload is stored as it is.
pub fn compress(input: &[u8]) -> (output: &[u8])
    ensures
        output@ == input@,
{
    input
}

/// Recovers a block's payload from its stored form: the inverse of
/// `compress`.
pub fn decompress(input: &[u8]) -> (output: &[u8])
    ensures
        output@ == input@,
{
    input
}

} // verus!
