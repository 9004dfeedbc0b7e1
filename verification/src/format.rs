//! The format of a segment file, as mathematics: the bytes that blocks of
//! records are written as, and the blocks that bytes are read as.
//!
//! A segment file is a sequence number in eight little-endian bytes, then
//! its blocks.  A block is the frame of its first key, then the frame of its
//! payload; the payload is, for each record of the block, the frame of the
//! key and the frame of the value.

use vstd::prelude::*;
use vstd::bytes::lemma_auto_spec_u64_to_from_le_bytes;
use vstd::bytes::spec_u64_from_le_bytes;
use vstd::bytes::spec_u64_to_le_bytes;
use vstd::seq_lib::lemma_flatten_concat;
use vstd::utf8::decode_utf8;
use vstd::utf8::decode_utf8_encode_utf8;
use vstd::utf8::encode_utf8;
use vstd::utf8::encode_utf8_decode_utf8;
use vstd::utf8::encode_utf8_valid_utf8;
use vstd::utf8::valid_utf8;
use crate::codec::MAX_FRAME_BYTES;
use crate::codec::entry_frames;
use crate::codec::frame;
use crate::codec::lemma_parse_entry_inverse;
use crate::codec::lemma_parse_entry_of_frames;
use crate::codec::parse_entry;
use crate::model::strictly_ascending;
use crate::order::text_precedes;

verus! {

/// The payload size above which a block is closed.
pub const BLOCK_SIZE_BYTES: usize = 10_000;

/// The bytes of a sequence number at the head of a segment file.
pub const HEADER_BYTES: usize = 8;

/// The bytes that one record is written as: the frame of its key and the
/// frame of its value, both as UTF-8.
pub open spec fn record_frames(record: (Seq<char>, Seq<char>)) -> Seq<u8> {
    entry_frames(encode_utf8(record.0), encode_utf8(record.1))
}

/// The payload of a block: the bytes of its records, one after the other.
pub open spec fn payload_of(records: Seq<(Seq<char>, Seq<char>)>) -> Seq<u8> {
    records.map_values(|record: (Seq<char>, Seq<char>)| record_frames(record)).flatten()
}

/// What a payload is stored as.  No compression is applied.
pub open spec fn stored(payload: Seq<u8>) -> Seq<u8> {
    payload
}

/// The bytes that a block is written as: the frame of its first key, then
/// the frame of its stored payload.
pub open spec fn block_bytes(block: Seq<(Seq<char>, Seq<char>)>) -> Seq<u8> {
    entry_frames(encode_utf8(block[0].0), stored(payload_of(block)))
}

/// The bytes that blocks are written as, one block after the other.
pub open spec fn blocks_bytes(blocks: Seq<Seq<(Seq<char>, Seq<char>)>>) -> Seq<u8> {
    blocks.map_values(|block: Seq<(Seq<char>, Seq<char>)>| block_bytes(block)).flatten()
}

/// The bytes of a segment file: the sequence number, then the blocks.
pub open spec fn segment_bytes(
    sequence_number: u64,
    blocks: Seq<Seq<(Seq<char>, Seq<char>)>>,
) -> Seq<u8> {
    spec_u64_to_le_bytes(sequence_number) + blocks_bytes(blocks)
}

/// Where in its file a block starts: behind the sequence number and the
/// blocks before it.
pub open spec fn block_offset(blocks: Seq<Seq<(Seq<char>, Seq<char>)>>, at: int) -> int {
    8 + blocks_bytes(blocks.subrange(0, at)).len() as int
}

/// The sparse index of a segment: for each block, its first key and where
/// the block starts in the file.
pub open spec fn index_of(blocks: Seq<Seq<(Seq<char>, Seq<char>)>>) -> Seq<(Seq<char>, int)> {
    Seq::new(blocks.len(), |at: int| (blocks[at][0].0, block_offset(blocks, at)))
}

/// Whether the key and the value of a record are each short enough for a
/// frame.
pub open spec fn record_fits(record: (Seq<char>, Seq<char>)) -> bool {
    &&& encode_utf8(record.0).len() <= MAX_FRAME_BYTES
    &&& encode_utf8(record.1).len() <= MAX_FRAME_BYTES
}

/// Whether a block can be written: it has a record, each of its records
/// fits, and its payload is short enough for a frame.
pub open spec fn block_fits(block: Seq<(Seq<char>, Seq<char>)>) -> bool {
    &&& block.len() > 0
    &&& forall|i: int| 0 <= i < block.len() ==> record_fits(#[trigger] block[i])
    &&& payload_of(block).len() <= MAX_FRAME_BYTES
}

/// Whether blocks make a segment: each can be written, and the keys are
/// strictly ascending within the blocks and from block to block.
pub open spec fn blocks_valid(blocks: Seq<Seq<(Seq<char>, Seq<char>)>>) -> bool {
    &&& forall|at: int| 0 <= at < blocks.len() ==> block_fits(#[trigger] blocks[at])
    &&& strictly_ascending(blocks.flatten())
}

/// The payload of records followed by more records is the payload of the
/// first followed by the payload of the others.
pub proof fn lemma_payload_concat(
    front: Seq<(Seq<char>, Seq<char>)>,
    back: Seq<(Seq<char>, Seq<char>)>,
)
    ensures
        payload_of(front + back) == payload_of(front) + payload_of(back),
{
    let each = |record: (Seq<char>, Seq<char>)| record_frames(record);
    assert((front + back).map_values(each) =~= front.map_values(each) + back.map_values(each));
    lemma_flatten_concat(front.map_values(each), back.map_values(each));
}

/// The payload of a single record is the bytes of that record.
pub proof fn lemma_payload_single(record: (Seq<char>, Seq<char>))
    ensures
        payload_of(seq![record]) == record_frames(record),
{
    let each = |record: (Seq<char>, Seq<char>)| record_frames(record);
    let mapped = seq![record].map_values(each);
    mapped.lemma_flatten_singleton();
}

/// The bytes of blocks followed by more blocks are the bytes of the first
/// followed by the bytes of the others.
pub proof fn lemma_blocks_concat(
    front: Seq<Seq<(Seq<char>, Seq<char>)>>,
    back: Seq<Seq<(Seq<char>, Seq<char>)>>,
)
    ensures
        blocks_bytes(front + back) == blocks_bytes(front) + blocks_bytes(back),
{
    let each = |block: Seq<(Seq<char>, Seq<char>)>| block_bytes(block);
    assert((front + back).map_values(each) =~= front.map_values(each) + back.map_values(each));
    lemma_flatten_concat(front.map_values(each), back.map_values(each));
}

/// The bytes of a single block.
pub proof fn lemma_blocks_single(block: Seq<(Seq<char>, Seq<char>)>)
    ensures
        blocks_bytes(seq![block]) == block_bytes(block),
{
    let each = |block: Seq<(Seq<char>, Seq<char>)>| block_bytes(block);
    let mapped = seq![block].map_values(each);
    mapped.lemma_flatten_singleton();
}

/// The first record that bytes hold, as text, and the bytes behind it; or
/// `None` where the bytes do not start with two complete frames of valid
/// UTF-8.
pub open spec fn first_record(bytes: Seq<u8>) -> Option<((Seq<char>, Seq<char>), Seq<u8>)> {
    match parse_entry(bytes) {
        Some(((key, value), rest)) => if valid_utf8(key) && valid_utf8(value) {
            Some(((decode_utf8(key), decode_utf8(value)), rest))
        } else {
            None
        },
        None => None,
    }
}

/// The records that a payload holds, or `None` where it is not a sequence of
/// records.
pub open spec fn parse_payload(payload: Seq<u8>) -> Option<Seq<(Seq<char>, Seq<char>)>>
    decreases payload.len(),
{
    if payload.len() == 0 {
        Some(Seq::empty())
    } else {
        match first_record(payload) {
            Some((record, rest)) => if rest.len() < payload.len() {
                match parse_payload(rest) {
                    Some(tail) => Some(seq![record] + tail),
                    None => None,
                }
            } else {
                None
            },
            None => None,
        }
    }
}

/// Reading the bytes of a record that fits gives the record back, and leaves
/// what followed it.
pub proof fn lemma_first_record_of_frames(record: (Seq<char>, Seq<char>), rest: Seq<u8>)
    requires
        record_fits(record),
    ensures
        first_record(record_frames(record) + rest) == Some((record, rest)),
{
    lemma_parse_entry_of_frames(encode_utf8(record.0), encode_utf8(record.1), rest);
    encode_utf8_valid_utf8(record.0);
    encode_utf8_valid_utf8(record.1);
    encode_utf8_decode_utf8(record.0);
    encode_utf8_decode_utf8(record.1);
}

/// A record that was read was written as its bytes: the input is those
/// bytes followed by the rest, and the record fits.
pub proof fn lemma_first_record_inverse(bytes: Seq<u8>)
    ensures
        first_record(bytes) matches Some((record, rest)) ==> (bytes == record_frames(record) + rest
            && record_fits(record) && rest.len() + 16 <= bytes.len()),
{
    lemma_parse_entry_inverse(bytes);
    if let Some(((key, value), rest)) = parse_entry(bytes) {
        if valid_utf8(key) && valid_utf8(value) {
            decode_utf8_encode_utf8(key);
            decode_utf8_encode_utf8(value);
        }
    }
}

/// Reading the payload of records that fit gives the records back.
pub proof fn lemma_parse_payload_of(records: Seq<(Seq<char>, Seq<char>)>)
    requires
        forall|i: int| 0 <= i < records.len() ==> record_fits(#[trigger] records[i]),
    ensures
        parse_payload(payload_of(records)) == Some(records),
    decreases records.len(),
{
    if records.len() > 0 {
        let head = records[0];
        let tail = records.drop_first();
        assert(records =~= seq![head] + tail);
        lemma_payload_concat(seq![head], tail);
        lemma_payload_single(head);
        lemma_first_record_of_frames(head, payload_of(tail));
        lemma_parse_payload_of(tail);
    }
}

/// A payload that was read was written as its records, each of which fits.
pub proof fn lemma_parse_payload_inverse(payload: Seq<u8>)
    ensures
        parse_payload(payload) matches Some(records) ==> (payload == payload_of(records)
            && forall|i: int| 0 <= i < records.len() ==> record_fits(#[trigger] records[i])),
    decreases payload.len(),
{
    if let Some((record, rest)) = first_record(payload) {
        lemma_first_record_inverse(payload);
        lemma_parse_payload_inverse(rest);
        if let Some(tail) = parse_payload(rest) {
            lemma_payload_concat(seq![record], tail);
            lemma_payload_single(record);
        }
    }
}

/// The first block that bytes hold, and the bytes behind it; or `None`
/// where the bytes do not start with a block: the frame of a key and the
/// frame of a payload that holds at least one record, the first of them
/// under that key.
pub open spec fn parse_block(bytes: Seq<u8>) -> Option<(Seq<(Seq<char>, Seq<char>)>, Seq<u8>)> {
    match parse_entry(bytes) {
        Some(((first_key, payload), rest)) => match parse_payload(payload) {
            Some(block) => if block.len() > 0 && first_key == encode_utf8(block[0].0) {
                Some((block, rest))
            } else {
                None
            },
            None => None,
        },
        None => None,
    }
}

/// The blocks that bytes hold, or `None` where the bytes are not a sequence
/// of blocks.
pub open spec fn parse_blocks(bytes: Seq<u8>) -> Option<Seq<Seq<(Seq<char>, Seq<char>)>>>
    decreases bytes.len(),
{
    if bytes.len() == 0 {
        Some(Seq::empty())
    } else {
        match parse_block(bytes) {
            Some((block, rest)) => if rest.len() < bytes.len() {
                match parse_blocks(rest) {
                    Some(tail) => Some(seq![block] + tail),
                    None => None,
                }
            } else {
                None
            },
            None => None,
        }
    }
}

/// The sequence number and the blocks that the bytes of a segment file
/// hold, or `None` where the bytes are not a segment file: a sequence
/// number, then blocks whose keys are strictly ascending throughout.
pub open spec fn parse_segment(data: Seq<u8>) -> Option<(u64, Seq<Seq<(Seq<char>, Seq<char>)>>)> {
    if data.len() < 8 {
        None
    } else {
        match parse_blocks(data.subrange(8, data.len() as int)) {
            Some(blocks) => if strictly_ascending(blocks.flatten()) {
                Some((spec_u64_from_le_bytes(data.subrange(0, 8)), blocks))
            } else {
                None
            },
            None => None,
        }
    }
}

/// Reading the bytes of a block that can be written gives the block back,
/// and leaves what followed it.
pub proof fn lemma_parse_block_of(block: Seq<(Seq<char>, Seq<char>)>, rest: Seq<u8>)
    requires
        block_fits(block),
    ensures
        parse_block(block_bytes(block) + rest) == Some((block, rest)),
{
    lemma_parse_entry_of_frames(encode_utf8(block[0].0), payload_of(block), rest);
    lemma_parse_payload_of(block);
}

/// A block that was read was written as its bytes: the input is those bytes
/// followed by the rest, and the block can be written.
pub proof fn lemma_parse_block_inverse(bytes: Seq<u8>)
    ensures
        parse_block(bytes) matches Some((block, rest)) ==> (bytes == block_bytes(block) + rest
            && block_fits(block) && rest.len() < bytes.len()),
{
    lemma_parse_entry_inverse(bytes);
    if let Some(((first_key, payload), rest)) = parse_entry(bytes) {
        lemma_parse_payload_inverse(payload);
    }
}

/// Reading the bytes of blocks that can be written gives the blocks back.
pub proof fn lemma_parse_blocks_of(blocks: Seq<Seq<(Seq<char>, Seq<char>)>>)
    requires
        forall|at: int| 0 <= at < blocks.len() ==> block_fits(#[trigger] blocks[at]),
    ensures
        parse_blocks(blocks_bytes(blocks)) == Some(blocks),
    decreases blocks.len(),
{
    if blocks.len() > 0 {
        let head = blocks[0];
        let tail = blocks.drop_first();
        assert(blocks =~= seq![head] + tail);
        lemma_blocks_concat(seq![head], tail);
        lemma_blocks_single(head);
        lemma_parse_block_of(head, blocks_bytes(tail));
        lemma_parse_blocks_of(tail);
    }
}

/// Blocks that were read were written as their bytes, and each of them can
/// be written.
pub proof fn lemma_parse_blocks_inverse(bytes: Seq<u8>)
    ensures
        parse_blocks(bytes) matches Some(blocks) ==> (bytes == blocks_bytes(blocks)
            && forall|at: int| 0 <= at < blocks.len() ==> block_fits(#[trigger] blocks[at])),
    decreases bytes.len(),
{
    if let Some((block, rest)) = parse_block(bytes) {
        lemma_parse_block_inverse(bytes);
        lemma_parse_blocks_inverse(rest);
        if let Some(tail) = parse_blocks(rest) {
            lemma_blocks_concat(seq![block], tail);
            lemma_blocks_single(block);
        }
    }
}

/// Reading the bytes of a segment gives back its sequence number and its
/// blocks.
pub proof fn lemma_parse_segment_of(
    sequence_number: u64,
    blocks: Seq<Seq<(Seq<char>, Seq<char>)>>,
)
    requires
        blocks_valid(blocks),
    ensures
        parse_segment(segment_bytes(sequence_number, blocks)) == Some((sequence_number, blocks)),
{
    lemma_auto_spec_u64_to_from_le_bytes();
    let data = segment_bytes(sequence_number, blocks);
    assert(data.subrange(0, 8) =~= spec_u64_to_le_bytes(sequence_number));
    assert(data.subrange(8, data.len() as int) =~= blocks_bytes(blocks));
    lemma_parse_blocks_of(blocks);
}

/// Bytes that were read as a segment are the bytes of that segment, and its
/// blocks make a segment.
pub proof fn lemma_parse_segment_inverse(data: Seq<u8>)
    ensures
        parse_segment(data) matches Some((sequence_number, blocks)) ==> (data == segment_bytes(
            sequence_number,
            blocks,
        ) && blocks_valid(blocks)),
{
    lemma_auto_spec_u64_to_from_le_bytes();
    if data.len() >= 8 {
        lemma_parse_blocks_inverse(data.subrange(8, data.len() as int));
    }
}

/// The number of records in the blocks before the block at `at`.
pub open spec fn records_before(blocks: Seq<Seq<(Seq<char>, Seq<char>)>>, at: int) -> int {
    blocks.subrange(0, at).flatten().len() as int
}

/// The records of blocks, one block after the other, hold each record of
/// each block at its place: behind the records of the blocks before.
pub proof fn lemma_flatten_place(blocks: Seq<Seq<(Seq<char>, Seq<char>)>>, at: int, within: int)
    requires
        0 <= at < blocks.len(),
        0 <= within < blocks[at].len(),
    ensures
        0 <= records_before(blocks, at),
        records_before(blocks, at) + blocks[at].len() == records_before(blocks, at + 1),
        records_before(blocks, at + 1) <= blocks.flatten().len(),
        blocks.flatten()[records_before(blocks, at) + within] == blocks[at][within],
{
    let front = blocks.subrange(0, at);
    let back = blocks.subrange(at + 1, blocks.len() as int);
    assert(blocks.subrange(0, at + 1) =~= front.push(blocks[at]));
    front.lemma_flatten_push(blocks[at]);
    assert(blocks =~= blocks.subrange(0, at + 1) + back);
    lemma_flatten_concat(blocks.subrange(0, at + 1), back);
}

/// Each record of the records of blocks is a record of one of the blocks.
pub proof fn lemma_flatten_member(blocks: Seq<Seq<(Seq<char>, Seq<char>)>>, place: int)
    requires
        0 <= place < blocks.flatten().len(),
    ensures
        exists|at: int, within: int|
            0 <= at < blocks.len() && 0 <= within < blocks[at].len() && place == records_before(
                blocks,
                at,
            ) + within && blocks.flatten()[place] == #[trigger] blocks[at][within],
    decreases blocks.len(),
{
    let last = blocks.len() - 1;
    let front = blocks.drop_last();
    assert(blocks =~= front.push(blocks[last]));
    front.lemma_flatten_push(blocks[last]);
    if place < front.flatten().len() {
        lemma_flatten_member(front, place);
        let (at, within) = choose|at: int, within: int|
            0 <= at < front.len() && 0 <= within < front[at].len() && place == records_before(
                front,
                at,
            ) + within && front.flatten()[place] == #[trigger] front[at][within];
        assert(front.subrange(0, at) =~= blocks.subrange(0, at));
    } else {
        let within = place - front.flatten().len();
        assert(blocks.flatten()[place] == blocks[last][within]);
    }
}

/// In blocks whose keys ascend throughout, the key of a record comes before
/// the key of each record of a later block, and of each later record of its
/// own block.
pub proof fn lemma_block_order(
    blocks: Seq<Seq<(Seq<char>, Seq<char>)>>,
    at: int,
    within: int,
    later_at: int,
    later_within: int,
)
    requires
        strictly_ascending(blocks.flatten()),
        0 <= at <= later_at < blocks.len(),
        0 <= within < blocks[at].len(),
        0 <= later_within < blocks[later_at].len(),
        at < later_at || within < later_within,
    ensures
        text_precedes(blocks[at][within].0, blocks[later_at][later_within].0),
{
    lemma_flatten_place(blocks, at, within);
    lemma_flatten_place(blocks, later_at, later_within);
    if at < later_at {
        lemma_records_before_grows(blocks, at + 1, later_at);
    }
}

/// The number of records before a block does not fall from block to block.
pub proof fn lemma_records_before_grows(
    blocks: Seq<Seq<(Seq<char>, Seq<char>)>>,
    at: int,
    later_at: int,
)
    requires
        0 <= at <= later_at <= blocks.len(),
    ensures
        records_before(blocks, at) <= records_before(blocks, later_at),
{
    let front = blocks.subrange(0, at);
    let between = blocks.subrange(at, later_at);
    assert(blocks.subrange(0, later_at) =~= front + between);
    lemma_flatten_concat(front, between);
}

/// Whether a block still takes records: its payload has not yet grown
/// above the block size.
pub open spec fn is_open(block: Seq<(Seq<char>, Seq<char>)>) -> bool {
    payload_of(block).len() <= BLOCK_SIZE_BYTES
}

/// The blocks that records are written in.  The records fill one block
/// after the other in their order; a block is closed as soon as its payload
/// is above the block size, and the last block is written as it stands.
pub open spec fn greedy_blocks(records: Seq<(Seq<char>, Seq<char>)>) -> Seq<
    Seq<(Seq<char>, Seq<char>)>,
>
    decreases records.len(),
{
    if records.len() == 0 {
        Seq::empty()
    } else {
        let before = greedy_blocks(records.drop_last());
        if before.len() > 0 && is_open(before.last()) {
            before.drop_last().push(before.last().push(records.last()))
        } else {
            before.push(seq![records.last()])
        }
    }
}

/// Whether records can be written as a segment: each of the blocks that
/// they are written in can be written.
pub open spec fn writable(records: Seq<(Seq<char>, Seq<char>)>) -> bool {
    forall|at: int|
        0 <= at < greedy_blocks(records).len() ==> block_fits(#[trigger] greedy_blocks(records)[at])
}

/// Whether the block at `at` has its final form: it is closed, or another
/// block has been begun behind it.
pub open spec fn is_settled(blocks: Seq<Seq<(Seq<char>, Seq<char>)>>, at: int) -> bool {
    0 <= at < blocks.len() && (at < blocks.len() - 1 || !is_open(blocks[at]))
}

/// The blocks that records are written in hold exactly those records, in
/// their order, and none of the blocks is empty.
pub proof fn lemma_greedy_flatten(records: Seq<(Seq<char>, Seq<char>)>)
    ensures
        greedy_blocks(records).flatten() == records,
        forall|at: int|
            0 <= at < greedy_blocks(records).len() ==> (#[trigger] greedy_blocks(records)[at]).len()
                > 0,
    decreases records.len(),
{
    if records.len() > 0 {
        let front = records.drop_last();
        let before = greedy_blocks(front);
        lemma_greedy_flatten(front);
        assert(records =~= front.push(records.last()));
        if before.len() > 0 && is_open(before.last()) {
            let kept = before.drop_last();
            assert(before =~= kept.push(before.last()));
            kept.lemma_flatten_push(before.last());
            kept.lemma_flatten_push(before.last().push(records.last()));
        } else {
            before.lemma_flatten_push(seq![records.last()]);
        }
    }
}

/// A block that has its final form while only the first `upto` records are
/// written stays as it is when the other records follow.
pub proof fn lemma_greedy_settled(records: Seq<(Seq<char>, Seq<char>)>, upto: int, at: int)
    requires
        0 <= upto <= records.len(),
        is_settled(greedy_blocks(records.subrange(0, upto)), at),
    ensures
        is_settled(greedy_blocks(records), at),
        greedy_blocks(records)[at] == greedy_blocks(records.subrange(0, upto))[at],
    decreases records.len() - upto,
{
    if upto == records.len() {
        assert(records.subrange(0, upto) =~= records);
    } else {
        let front = records.drop_last();
        assert(front.subrange(0, upto) =~= records.subrange(0, upto));
        lemma_greedy_settled(front, upto, at);
    }
}

/// The sparse index of blocks with one more block behind them: one more
/// entry, for that block, behind the entries of the others.
pub proof fn lemma_index_push(
    blocks: Seq<Seq<(Seq<char>, Seq<char>)>>,
    block: Seq<(Seq<char>, Seq<char>)>,
)
    ensures
        index_of(blocks.push(block)) == index_of(blocks).push(
            (block[0].0, 8 + blocks_bytes(blocks).len() as int),
        ),
        blocks_bytes(blocks.push(block)) == blocks_bytes(blocks) + block_bytes(block),
{
    let longer = blocks.push(block);
    assert forall|at: int| 0 <= at < blocks.len() implies index_of(longer)[at] == index_of(
        blocks,
    )[at] by {
        assert(longer.subrange(0, at) =~= blocks.subrange(0, at));
    }
    assert(longer.subrange(0, blocks.len() as int) =~= blocks);
    assert(longer =~= blocks + seq![block]);
    lemma_blocks_concat(blocks, seq![block]);
    lemma_blocks_single(block);
}

/// A segment that is written from records in ascending order of their
/// keys and read again gives those records back: the bytes of the segment
/// hold its sequence number and its blocks, and the blocks hold exactly the
/// records, in their order.
pub proof fn lemma_segment_round_trip(sequence_number: u64, records: Seq<(Seq<char>, Seq<char>)>)
    requires
        strictly_ascending(records),
        writable(records),
    ensures
        blocks_valid(greedy_blocks(records)),
        greedy_blocks(records).flatten() == records,
        parse_segment(segment_bytes(sequence_number, greedy_blocks(records))) == Some(
            (sequence_number, greedy_blocks(records)),
        ),
{
    lemma_greedy_flatten(records);
    lemma_parse_segment_of(sequence_number, greedy_blocks(records));
}

} // verus!
