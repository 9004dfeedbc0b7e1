//! Immutable sorted segments: the file format, its sparse index, lookups,
//! scans and the merge of several segments into one.

use vstd::prelude::*;
use vstd::bytes::lemma_auto_spec_u64_to_from_le_bytes;
use vstd::bytes::u64_from_le_bytes;
use vstd::bytes::u64_to_le_bytes;
use vstd::pervasive::unreached;
use vstd::seq_lib::to_multiset_contains;
use vstd::seq_lib::to_multiset_insert;
use vstd::seq_lib::to_multiset_remove;
use vstd::slice::slice_subrange;
use vstd::slice::slice_to_vec;
use vstd::utf8::encode_utf8;
use crate::GetResult;
use crate::StoreError;
use crate::codec::MAX_FRAME_BYTES;
use crate::codec::Reader;
use crate::codec::compress;
use crate::codec::decompress;
use crate::codec::encode;
use crate::codec::entry_frames;
use crate::codec::lemma_parse_entry_of_frames;
use crate::codec::read_entry;
use crate::format::BLOCK_SIZE_BYTES;
use crate::format::HEADER_BYTES;
use crate::format::block_bytes;
use crate::format::block_fits;
use crate::format::block_offset;
use crate::format::blocks_bytes;
use crate::format::blocks_valid;
use crate::format::first_record;
use crate::format::greedy_blocks;
use crate::format::index_of;
use crate::format::is_open;
use crate::format::lemma_block_order;
use crate::format::lemma_blocks_concat;
use crate::format::lemma_blocks_single;
use crate::format::lemma_first_record_of_frames;
use crate::format::lemma_flatten_member;
use crate::format::lemma_flatten_place;
use crate::format::lemma_greedy_flatten;
use crate::format::lemma_greedy_settled;
use crate::format::lemma_index_push;
use crate::format::lemma_parse_block_inverse;
use crate::format::lemma_parse_payload_of;
use crate::format::lemma_parse_segment_inverse;
use crate::format::lemma_parse_segment_of;
use crate::format::lemma_payload_concat;
use crate::format::lemma_payload_single;
use crate::format::parse_blocks;
use crate::format::parse_payload;
use crate::format::parse_segment;
use crate::format::payload_of;
use crate::format::record_fits;
use crate::format::records_before;
use crate::format::segment_bytes;
use crate::format::stored;
use crate::format::writable;
use crate::log_store::text_of;
use crate::merge::merge;
use crate::merge::source_maps;
use crate::merge::sources_of;
use crate::model::answers;
use crate::model::ascending_records;
use crate::model::layers;
use crate::model::lemma_ascending_push;
use crate::model::lemma_ascending_records;
use crate::model::lemma_layers_domain;
use crate::model::lemma_layers_top;
use crate::model::lemma_records_map_at;
use crate::model::lemma_records_map_domain;
use crate::model::records_map;
use crate::model::records_of;
use crate::model::strictly_ascending;
use crate::order::Position;
use crate::order::compare_bytes;
use crate::order::compare_text;
use crate::order::lemma_text_not_after_chain;
use crate::order::lemma_text_precedes_total;
use crate::order::lemma_text_precedes_transitive;
use crate::order::same_text;
use crate::order::text_precedes;

verus! {

/// Whether the keys of `elements` never descend: no element's key comes
/// before the key of an element that stands earlier.
pub open spec fn keys_ascend<V>(elements: Seq<(String, V)>) -> bool {
    forall|i: int, j: int|
        0 <= i < j < elements.len() ==> !text_precedes(
            #[trigger] elements[j].0@,
            #[trigger] elements[i].0@,
        )
}

/// Finds, by binary search, the element with the greatest key that does not
/// come after `key`.
///
/// The result is always an element of `elements`, if it is any.  Where the
/// keys of `elements` never descend, there is no result exactly if every key
/// comes after `key`, and otherwise the result's key is the greatest one that
/// does not come after `key`.
pub fn closest_element_before<'a, V>(key: &str, elements: &'a Vec<(String, V)>) -> (result: Option<
    &'a (String, V),
>)
    ensures
        result matches Some(element) ==> exists|i: int|
            0 <= i < elements@.len() && *element == #[trigger] elements@[i],
        keys_ascend(elements@) ==> match result {
            None => forall|i: int|
                0 <= i < elements@.len() ==> text_precedes(key@, #[trigger] elements@[i].0@),
            Some(element) => {
                &&& !text_precedes(key@, element.0@)
                &&& forall|i: int|
                    0 <= i < elements@.len() && !text_precedes(key@, #[trigger] elements@[i].0@)
                        ==> !text_precedes(element.0@, elements@[i].0@)
            },
        },
{
    let mut low: usize = 0;
    let mut high: usize = elements.len();
    while low < high
        invariant
            low <= high <= elements@.len(),
            keys_ascend(elements@) ==> forall|i: int|
                0 <= i < low ==> !text_precedes(key@, #[trigger] elements@[i].0@),
            keys_ascend(elements@) ==> forall|i: int|
                high <= i < elements@.len() ==> text_precedes(key@, #[trigger] elements@[i].0@),
        decreases high - low,
    {
        let mid: usize = low + (high - low) / 2;
        let mid_key = &elements[mid].0;
        match compare_text(mid_key.as_str(), key) {
            Position::After => {
                proof {
                    if keys_ascend(elements@) {
                        assert forall|i: int| mid <= i < elements@.len() implies text_precedes(
                            key@,
                            #[trigger] elements@[i].0@,
                        ) by {
                            if !text_precedes(key@, elements@[i].0@) {
                                lemma_text_not_after_chain(
                                    elements@[mid as int].0@,
                                    elements@[i].0@,
                                    key@,
                                );
                            }
                        }
                    }
                }
                high = mid;
            },
            _ => {
                proof {
                    if keys_ascend(elements@) {
                        assert forall|i: int| 0 <= i < mid + 1 implies !text_precedes(
                            key@,
                            #[trigger] elements@[i].0@,
                        ) by {
                            lemma_text_precedes_total(elements@[i].0@, elements@[mid as int].0@);
                            lemma_text_not_after_chain(
                                elements@[i].0@,
                                elements@[mid as int].0@,
                                key@,
                            );
                        }
                    }
                }
                low = mid + 1;
            },
        }
    }
    if low == 0 {
        None
    } else {
        let element = &elements[low - 1];
        proof {
            if keys_ascend(elements@) {
                assert forall|i: int|
                    0 <= i < elements@.len() && !text_precedes(
                        key@,
                        #[trigger] elements@[i].0@,
                    ) implies !text_precedes(element.0@, elements@[i].0@) by {
                    if i == low - 1 {
                        lemma_text_precedes_total(element.0@, element.0@);
                    }
                }
            }
        }
        Some(element)
    }
}

/// A cursor over the records of a block's payload.
pub struct BlockIterator {
    data: Vec<u8>,
    position: usize,
}

impl View for BlockIterator {
    type V = Seq<u8>;

    /// The bytes of the payload that have not been read.
    closed spec fn view(&self) -> Seq<u8> {
        self.data@.subrange(self.position as int, self.data@.len() as int)
    }
}

impl BlockIterator {
    /// The cursor never stands behind the end of the payload.
    pub closed spec fn well_formed(&self) -> bool {
        self.position <= self.data@.len()
    }

    /// A cursor at the start of the payload that `block` is stored as.
    pub fn new(block: &Vec<u8>) -> (iterator: BlockIterator)
        ensures
            iterator.well_formed(),
            iterator@ == block@,
    {
        let data = slice_to_vec(decompress(block.as_slice()));
        BlockIterator { data, position: 0 }
    }

    /// The next record of the payload: nothing at the end; else the record
    /// at the cursor, which moves behind it; else, where the bytes at the
    /// cursor are no record of UTF-8 text, the report that the data is
    /// corrupt, after which the cursor stands at the end.
    pub fn next(&mut self) -> (item: Option<Result<(String, String), StoreError>>)
        requires
            old(self).well_formed(),
        ensures
            final(self).well_formed(),
            old(self)@.len() == 0 ==> item is None && final(self)@ == old(self)@,
            old(self)@.len() > 0 ==> match first_record(old(self)@) {
                Some((record, rest)) => item matches Some(Ok(pair)) && pair.0@ == record.0
                    && pair.1@ == record.1 && final(self)@ == rest,
                None => item == Some(
                    Err::<(String, String), StoreError>(StoreError::Corruption),
                ) && final(self)@.len() == 0,
            },
    {
        if self.position >= self.data.len() {
            return None;
        }
        let mut reader = Reader::at(self.data.as_slice(), self.position);
        let entry = read_entry(&mut reader);
        let after = reader.position();
        match entry {
            Ok((key, value)) => {
                match (String::from_utf8(key), String::from_utf8(value)) {
                    (Ok(key), Ok(value)) => {
                        self.position = after;
                        Some(Ok((key, value)))
                    },
                    _ => {
                        self.position = self.data.len();
                        Some(Err(StoreError::Corruption))
                    },
                }
            },
            Err(error) => {
                self.position = self.data.len();
                Some(Err(error))
            },
        }
    }
}

/// An immutable sorted segment: the bytes of its file, and in memory the
/// first key of each of its blocks with the place where the block starts.
pub struct SegmentStore {
    sequence_number: usize,
    file_name: String,
    data: Vec<u8>,
    index: Vec<(String, usize)>,
    blocks: Ghost<Seq<Seq<(Seq<char>, Seq<char>)>>>,
}

impl View for SegmentStore {
    type V = Map<Seq<char>, Seq<char>>;

    /// The value of each key of the segment.
    open spec fn view(&self) -> Map<Seq<char>, Seq<char>> {
        records_map(self.records())
    }
}

impl SegmentStore {
    /// The blocks of the segment, each with its records.
    pub closed spec fn blocks(&self) -> Seq<Seq<(Seq<char>, Seq<char>)>> {
        self.blocks@
    }

    /// The bytes of the segment's file.
    pub closed spec fn image(&self) -> Seq<u8> {
        self.data@
    }

    /// The name of the segment's file.
    pub closed spec fn name(&self) -> Seq<char> {
        self.file_name@
    }

    /// The sequence number of the segment.
    pub closed spec fn sequence(&self) -> usize {
        self.sequence_number
    }

    /// The sparse index as it is held in memory: for each block a key and a
    /// place in the file.
    pub closed spec fn index(&self) -> Seq<(Seq<char>, int)> {
        shown_index(self.index@)
    }

    /// The records of the segment, in the order of the file.
    pub open spec fn records(&self) -> Seq<(Seq<char>, Seq<char>)> {
        self.blocks().flatten()
    }

    /// The blocks are not empty and hold strictly ascending keys, the file
    /// is what the sequence number and the blocks are written as, and the
    /// index lists, for each block, its first key and where it starts.
    pub open spec fn is_valid(&self) -> bool {
        &&& blocks_valid(self.blocks())
        &&& self.image() == segment_bytes(self.sequence() as u64, self.blocks())
        &&& self.index() == index_of(self.blocks())
    }

    /// The sequence number of the segment.
    pub fn get_sequence_number(&self) -> (sequence_number: usize)
        ensures
            sequence_number == self.sequence(),
    {
        self.sequence_number
    }

    /// The name of the segment's file.
    pub fn file_name(&self) -> (file_name: &str)
        ensures
            file_name@ == self.name(),
    {
        self.file_name.as_str()
    }

    /// The bytes of the segment's file.
    pub fn as_bytes(&self) -> (bytes: &[u8])
        ensures
            bytes@ == self.image(),
    {
        self.data.as_slice()
    }

    /// The number of blocks, which is the number of entries of the index.
    pub fn block_count(&self) -> (count: usize)
        ensures
            count == self.index().len(),
    {
        self.index.len()
    }

    /// The first key of the block at `at`, as the index holds it, or
    /// nothing where the segment has no such block.
    pub fn first_key_of_block(&self, at: usize) -> (key: Option<&str>)
        ensures
            at < self.index().len() ==> (key matches Some(text) && text@ == self.index()[at as int].0),
            at >= self.index().len() ==> key is None,
    {
        if at < self.index.len() {
            Some(self.index[at].0.as_str())
        } else {
            None
        }
    }

    proof fn lemma_index_ascends(&self)
        requires
            self.is_valid(),
        ensures
            keys_ascend(self.index@),
            self.index@.len() == self.blocks().len(),
            forall|at: int|
                0 <= at < self.index@.len() ==> (#[trigger] self.index@[at]).0@ == self.blocks()[at][0].0
                    && self.index@[at].1 == block_offset(self.blocks(), at),
            forall|i: int, j: int|
                0 <= i < j < self.index@.len() ==> text_precedes(
                    #[trigger] self.index@[i].0@,
                    #[trigger] self.index@[j].0@,
                ),
    {
        let blocks = self.blocks();
        assert(self.index().len() == index_of(blocks).len());
        assert forall|at: int| 0 <= at < self.index@.len() implies (#[trigger] self.index@[at]).0@
            == blocks[at][0].0 && self.index@[at].1 == block_offset(blocks, at) by {
            assert(self.index()[at] == index_of(blocks)[at]);
        }
        assert forall|i: int, j: int| 0 <= i < j < self.index@.len() implies text_precedes(
            #[trigger] self.index@[i].0@,
            #[trigger] self.index@[j].0@,
        ) by {
            lemma_block_order(blocks, i, 0, j, 0);
        }
        assert forall|i: int, j: int| 0 <= i < j < self.index@.len() implies !text_precedes(
            #[trigger] self.index@[j].0@,
            #[trigger] self.index@[i].0@,
        ) by {
            lemma_text_precedes_total(self.index@[i].0@, self.index@[j].0@);
        }
    }

    /// The file ends where the last block ends.
    proof fn lemma_image_length(&self)
        requires
            self.is_valid(),
        ensures
            self.image().len() == block_offset(self.blocks(), self.blocks().len() as int),
    {
        let blocks = self.blocks();
        assert(blocks.subrange(0, blocks.len() as int) =~= blocks);
        lemma_auto_spec_u64_to_from_le_bytes();
    }

    /// The file from the start of the block at `at` on is that block, then
    /// the blocks behind it.
    proof fn lemma_block_at(&self, at: int)
        requires
            self.is_valid(),
            0 <= at < self.blocks().len(),
        ensures
            block_offset(self.blocks(), at) + block_bytes(self.blocks()[at]).len() == block_offset(
                self.blocks(),
                at + 1,
            ),
            block_offset(self.blocks(), at + 1) <= self.image().len(),
            self.image().subrange(block_offset(self.blocks(), at), self.image().len() as int)
                == block_bytes(self.blocks()[at]) + blocks_bytes(
                self.blocks().subrange(at + 1, self.blocks().len() as int),
            ),
            self.image().len() == block_offset(self.blocks(), self.blocks().len() as int),
    {
        let blocks = self.blocks();
        let front = blocks.subrange(0, at);
        let back = blocks.subrange(at + 1, blocks.len() as int);
        assert(blocks.subrange(0, at + 1) =~= front + seq![blocks[at]]);
        lemma_blocks_concat(front, seq![blocks[at]]);
        lemma_blocks_single(blocks[at]);
        assert(blocks =~= blocks.subrange(0, at + 1) + back);
        lemma_blocks_concat(blocks.subrange(0, at + 1), back);
        assert(blocks.subrange(0, blocks.len() as int) =~= blocks);
        lemma_auto_spec_u64_to_from_le_bytes();
    }

    /// Writes a segment from records in strictly ascending order of their
    /// keys.
    ///
    /// The file begins with the sequence number.  The records fill one
    /// block after the other: a block is closed as soon as its payload is
    /// above `BLOCK_SIZE_BYTES`, and a last block that holds anything is
    /// written as it stands.  The index gets one entry for each block.  The
    /// records are refused as oversized exactly where a key, a value or the
    /// payload of a block is too long for a frame.
    #[verifier::rlimit(30)]
    pub fn create_from_iterator(
        file_name: String,
        sequence_number: usize,
        sorted_iterator: Vec<(String, String)>,
    ) -> (result: Result<SegmentStore, StoreError>)
        requires
            strictly_ascending(records_of(sorted_iterator@)),
        ensures
            result is Ok <==> writable(records_of(sorted_iterator@)),
            result matches Ok(segment) ==> {
                &&& segment.is_valid()
                &&& segment.blocks() == greedy_blocks(records_of(sorted_iterator@))
                &&& segment.records() == records_of(sorted_iterator@)
                &&& segment.sequence() == sequence_number
                &&& segment.name() == file_name@
            },
            result matches Err(error) ==> error == StoreError::Oversized,
    {
        let ghost records = records_of(sorted_iterator@);
        let mut data = u64_to_le_bytes(sequence_number as u64);
        let mut index: Vec<(String, usize)> = Vec::new();
        let mut buffer: Vec<u8> = Vec::new();
        let mut first_key: Option<String> = None;
        let ghost mut closed: Seq<Seq<(Seq<char>, Seq<char>)>> = Seq::empty();
        let ghost mut current: Seq<(Seq<char>, Seq<char>)> = Seq::empty();
        let mut i: usize = 0;
        while i < sorted_iterator.len()
            invariant
                records == records_of(sorted_iterator@),
                0 <= i <= sorted_iterator@.len(),
                data@ == segment_bytes(sequence_number as u64, closed),
                buffer@ == payload_of(current),
                hold(closed, current) == greedy_blocks(records.subrange(0, i as int)),
                current.len() > 0 ==> is_open(current),
                closed.len() > 0 ==> !is_open(closed.last()),
                forall|at: int| 0 <= at < closed.len() ==> block_fits(#[trigger] closed[at]),
                forall|within: int|
                    0 <= within < current.len() ==> record_fits(#[trigger] current[within]),
                current.len() > 0 <==> first_key is Some,
                first_key matches Some(key) ==> key@ == current[0].0,
                shown_index(index@) == if current.len() > 0 {
                    index_of(closed).push((current[0].0, data@.len() as int))
                } else {
                    index_of(closed)
                },
            decreases sorted_iterator@.len() - i,
        {
            let ghost record = records[i as int];
            let key = &sorted_iterator[i].0;
            let value = &sorted_iterator[i].1;
            proof {
                assert(records.subrange(0, i + 1).drop_last() =~= records.subrange(0, i as int));
                lemma_auto_spec_u64_to_from_le_bytes();
            }
            let encoded_key = encode(key.as_str().as_bytes());
            let encoded_value = encode(value.as_str().as_bytes());
            let (mut encoded_key, mut encoded_value) = match (encoded_key, encoded_value) {
                (Ok(encoded_key), Ok(encoded_value)) => (encoded_key, encoded_value),
                _ => {
                    proof {
                        lemma_unfit_record(records, i as int);
                    }
                    return Err(StoreError::Oversized);
                },
            };
            if first_key.is_none() {
                index.push((key.clone(), data.len()));
                first_key = Some(key.clone());
            }
            buffer.append(&mut encoded_key);
            buffer.append(&mut encoded_value);
            proof {
                let grown = current.push(record);
                assert(grown =~= current + seq![record]);
                lemma_payload_concat(current, seq![record]);
                lemma_payload_single(record);
                current = grown;
            }
            if buffer.len() > BLOCK_SIZE_BYTES {
                let block_key = match first_key {
                    Some(key) => key,
                    None => unreached(),
                };
                match write_block(&mut data, block_key.as_str(), &buffer) {
                    Ok(()) => {},
                    Err(error) => {
                        proof {
                            let at = closed.len() as int;
                            lemma_greedy_settled(records, i + 1, at);
                        }
                        return Err(error);
                    },
                }
                buffer.clear();
                first_key = None;
                proof {
                    lemma_index_push(closed, current);
                    closed = closed.push(current);
                    current = Seq::empty();
                }
            }
            i += 1;
        }
        proof {
            assert(records.subrange(0, i as int) =~= records);
            lemma_greedy_flatten(records);
        }
        if buffer.len() > 0 {
            let block_key = match first_key {
                Some(key) => key,
                None => unreached(),
            };
            match write_block(&mut data, block_key.as_str(), &buffer) {
                Ok(()) => {},
                Err(error) => {
                    return Err(error);
                },
            }
            proof {
                lemma_index_push(closed, current);
                closed = closed.push(current);
                assert(data@ =~= segment_bytes(sequence_number as u64, closed));
            }
        } else {
            assert(current.len() == 0) by {
                if current.len() > 0 {
                    lemma_auto_spec_u64_to_from_le_bytes();
                }
            }
        }
        let segment = SegmentStore { sequence_number, file_name, data, index, blocks: Ghost(closed) };
        Ok(segment)
    }

    /// The records of the segment in ascending order of their keys: the
    /// blocks in the order of the file, and the records of each block in
    /// their order.  A segment without blocks has no records.
    pub fn iter(&self) -> (records: Vec<(String, String)>)
        requires
            self.is_valid(),
        ensures
            records_of(records@) == self.records(),
            strictly_ascending(records_of(records@)),
    {
        let ghost blocks = self.blocks();
        let mut records: Vec<(String, String)> = Vec::new();
        let mut reader = Reader::at(self.data.as_slice(), HEADER_BYTES);
        let ghost mut at: int = 0;
        proof {
            lemma_auto_spec_u64_to_from_le_bytes();
        }
        while !reader.is_at_end()
            invariant
                self.is_valid(),
                blocks == self.blocks(),
                reader.well_formed(),
                reader.source() == self.image(),
                0 <= at <= blocks.len(),
                reader.offset() == block_offset(blocks, at),
                records_of(records@) == blocks.subrange(0, at).flatten(),
            decreases blocks.len() - at,
        {
            proof {
                if at < blocks.len() {
                    self.lemma_block_at(at);
                    lemma_parse_entry_of_frames(
                        encode_utf8(blocks[at][0].0),
                        payload_of(blocks[at]),
                        blocks_bytes(blocks.subrange(at + 1, blocks.len() as int)),
                    );
                    lemma_parse_payload_of(blocks[at]);
                } else {
                    self.lemma_image_length();
                }
            }
            let payload = match read_entry(&mut reader) {
                Ok((_, payload)) => payload,
                Err(_) => unreached(),
            };
            let mut block = match block_records(&payload) {
                Ok(block) => block,
                Err(_) => unreached(),
            };
            records.append(&mut block);
            proof {
                assert(blocks.subrange(0, at + 1) =~= blocks.subrange(0, at).push(blocks[at]));
                blocks.subrange(0, at).lemma_flatten_push(blocks[at]);
                at = at + 1;
            }
        }
        proof {
            if at < blocks.len() {
                self.lemma_block_at(at);
            }
            assert(blocks.subrange(0, blocks.len() as int) =~= blocks);
        }
        records
    }

    /// The value of `key` in the segment, or nothing where the segment has
    /// no such key.  Only the one block that may hold the key is read: the
    /// block whose first key is the greatest that does not come after
    /// `key`.  A lookup in a segment always succeeds.
    pub fn get(&self, key: &str) -> (result: GetResult)
        requires
            self.is_valid(),
        ensures
            result matches Ok(found) && answers(found, self@, key@),
    {
        let ghost blocks = self.blocks();
        proof {
            self.lemma_index_ascends();
        }
        let offset = match closest_element_before(key, &self.index) {
            Some(entry) => entry.1,
            None => {
                proof {
                    assert forall|at: int| 0 <= at < blocks.len() implies text_precedes(
                        key@,
                        #[trigger] blocks[at][0].0,
                    ) by {
                        assert(text_precedes(key@, self.index@[at].0@));
                    }
                    lemma_key_before_all_blocks(blocks, key@);
                }
                return Ok(None);
            },
        };
        let ghost at = choose|at: int|
            0 <= at < self.index@.len() && !text_precedes(key@, self.index@[at].0@)
                && self.index@[at].1 == offset && forall|i: int|
                0 <= i < self.index@.len() && !text_precedes(key@, #[trigger] self.index@[i].0@)
                    ==> !text_precedes(self.index@[at].0@, self.index@[i].0@);
        let ghost block = blocks[at];
        proof {
            self.lemma_block_at(at);
            lemma_parse_entry_of_frames(
                encode_utf8(block[0].0),
                payload_of(block),
                blocks_bytes(blocks.subrange(at + 1, blocks.len() as int)),
            );
        }
        let mut reader = Reader::at(self.data.as_slice(), offset);
        let payload = match read_entry(&mut reader) {
            Ok((_, payload)) => payload,
            Err(error) => {
                return Err(error);
            },
        };
        let found = find_in_block(&payload, key, Ghost(block));
        proof {
            match found {
                Some(_) => {
                    let value = found->0;
                    let within = choose|within: int|
                        0 <= within < block.len() && #[trigger] block[within] == (key@, value@);
                    lemma_key_in_block(blocks, at, within);
                },
                None => {
                    assert forall|other: int| at < other < blocks.len() implies text_precedes(
                        key@,
                        #[trigger] blocks[other][0].0,
                    ) by {
                        lemma_text_precedes_total(key@, self.index@[other].0@);
                    }
                    lemma_key_in_no_block(blocks, at, key@);
                },
            }
        }
        Ok(found)
    }
}

/// The sequence number and the blocks of the segment that a file holds, or
/// `None` where the bytes are not a segment file, or its sequence number
/// does not fit in a machine word.
pub open spec fn loaded(data: Seq<u8>) -> Option<(usize, Seq<Seq<(Seq<char>, Seq<char>)>>)> {
    match parse_segment(data) {
        Some((sequence_number, blocks)) => if sequence_number <= usize::MAX {
            Some((sequence_number as usize, blocks))
        } else {
            None
        },
        None => None,
    }
}

/// Takes up the segment whose file holds `data`.
///
/// The whole file is read: the sequence number, then block after block,
/// each with its records, and the index gets one entry for each block, with
/// the place at which the block starts.  The file is reported corrupt
/// unless it is a sequence number followed by blocks of records of UTF-8
/// text, each block under the key of its first record, with keys that are
/// strictly ascending throughout.
pub fn load_from_file(file_name: String, data: Vec<u8>) -> (result: Result<
    SegmentStore,
    StoreError,
>)
    ensures
        match loaded(data@) {
            Some((sequence_number, blocks)) => result matches Ok(segment) && segment.is_valid()
                && segment.image() == data@ && segment.blocks() == blocks && segment.sequence()
                == sequence_number && segment.name() == file_name@,
            None => result matches Err(error) && error == StoreError::Corruption,
        },
{
    if data.len() < HEADER_BYTES {
        return Err(StoreError::Corruption);
    }
    let header = slice_subrange(data.as_slice(), 0, HEADER_BYTES);
    let number = u64_from_le_bytes(header);
    let ghost body = data@.subrange(8, data@.len() as int);
    let mut index: Vec<(String, usize)> = Vec::new();
    let mut reader = Reader::at(data.as_slice(), HEADER_BYTES);
    let mut last_key: Option<String> = None;
    let mut ordered = true;
    let ghost mut done: Seq<Seq<(Seq<char>, Seq<char>)>> = Seq::empty();
    while !reader.is_at_end()
        invariant
            body == data@.subrange(8, data@.len() as int),
            reader.well_formed(),
            reader.source() == data@,
            reader.offset() == 8 + blocks_bytes(done).len(),
            match parse_blocks(reader.remaining()) {
                Some(tail) => parse_blocks(body) == Some(done + tail),
                None => parse_blocks(body) is None,
            },
            shown_index(index@) == index_of(done),
            ordered <==> strictly_ascending(done.flatten()),
            text_of(last_key) == if done.flatten().len() > 0 {
                Some(done.flatten().last().0)
            } else {
                None
            },
        decreases reader.remaining().len(),
    {
        let ghost unread = reader.remaining();
        proof {
            lemma_parse_block_inverse(unread);
        }
        let offset = reader.position();
        let (first_key, payload) = match read_entry(&mut reader) {
            Ok(entry) => entry,
            Err(error) => {
                return Err(error);
            },
        };
        let records = match block_records(&payload) {
            Ok(records) => records,
            Err(error) => {
                return Err(error);
            },
        };
        if records.len() == 0 {
            return Err(StoreError::Corruption);
        }
        let ghost block = records_of(records@);
        match compare_bytes(first_key.as_slice(), records[0].0.as_str().as_bytes()) {
            Position::Same => {},
            _ => {
                return Err(StoreError::Corruption);
            },
        }
        let fine = follows_in_order(&records, &mut last_key, Ghost(done.flatten()));
        ordered = ordered && fine;
        index.push((records[0].0.clone(), offset));
        proof {
            lemma_index_push(done, block);
            done.lemma_flatten_push(block);
            done = done.push(block);
        }
    }
    proof {
        lemma_parse_segment_inverse(data@);
    }
    if !ordered || number > usize::MAX as u64 {
        return Err(StoreError::Corruption);
    }
    let segment = SegmentStore {
        sequence_number: number as usize,
        file_name,
        data,
        index,
        blocks: Ghost(done),
    };
    Ok(segment)
}

/// Whether the keys of `records` ascend strictly, and from the key that
/// came last before them, which `last_key` holds.  Afterwards `last_key`
/// holds the key of the last of the records.
fn follows_in_order(
    records: &Vec<(String, String)>,
    last_key: &mut Option<String>,
    Ghost(prior): Ghost<Seq<(Seq<char>, Seq<char>)>>,
) -> (ordered: bool)
    requires
        text_of(*old(last_key)) == if prior.len() > 0 {
            Some(prior.last().0)
        } else {
            None
        },
    ensures
        strictly_ascending(prior) ==> (ordered <==> strictly_ascending(
            prior + records_of(records@),
        )),
        !strictly_ascending(prior) ==> !strictly_ascending(prior + records_of(records@)),
        text_of(*final(last_key)) == if (prior + records_of(records@)).len() > 0 {
            Some((prior + records_of(records@)).last().0)
        } else {
            None
        },
{
    let ghost added = records_of(records@);
    let mut ordered = true;
    let mut i: usize = 0;
    while i < records.len()
        invariant
            added == records_of(records@),
            0 <= i <= records@.len(),
            strictly_ascending(prior) ==> (ordered <==> strictly_ascending(
                prior + added.subrange(0, i as int),
            )),
            !strictly_ascending(prior) ==> !strictly_ascending(prior + added.subrange(0, i as int)),
            text_of(*last_key) == if (prior + added.subrange(0, i as int)).len() > 0 {
                Some((prior + added.subrange(0, i as int)).last().0)
            } else {
                None
            },
        decreases records@.len() - i,
    {
        let ghost so_far = prior + added.subrange(0, i as int);
        let key = &records[i].0;
        proof {
            assert(prior + added.subrange(0, i + 1) =~= so_far.push(added[i as int]));
            lemma_ascending_push(so_far, added[i as int]);
        }
        let after = match last_key {
            Some(last) => match compare_text(last.as_str(), key.as_str()) {
                Position::Before => true,
                _ => false,
            },
            None => true,
        };
        ordered = ordered && after;
        *last_key = Some(key.clone());
        i += 1;
    }
    proof {
        assert(added.subrange(0, i as int) =~= added);
    }
    ordered
}

/// The blocks that are written or begun: the closed ones, and behind them
/// the one that still takes records, if it holds any.
spec fn hold(
    closed: Seq<Seq<(Seq<char>, Seq<char>)>>,
    current: Seq<(Seq<char>, Seq<char>)>,
) -> Seq<Seq<(Seq<char>, Seq<char>)>> {
    if current.len() > 0 {
        closed.push(current)
    } else {
        closed
    }
}

/// The entries of an index, each with the text of its key.
spec fn shown_index(index: Seq<(String, usize)>) -> Seq<(Seq<char>, int)> {
    Seq::new(index.len(), |at: int| (index[at].0@, index[at].1 as int))
}

/// Records of which one does not fit cannot be written.
proof fn lemma_unfit_record(records: Seq<(Seq<char>, Seq<char>)>, place: int)
    requires
        0 <= place < records.len(),
        !record_fits(records[place]),
    ensures
        !writable(records),
{
    let blocks = greedy_blocks(records);
    lemma_greedy_flatten(records);
    lemma_flatten_member(blocks, place);
    let (at, within) = choose|at: int, within: int|
        0 <= at < blocks.len() && 0 <= within < blocks[at].len() && place == records_before(
            blocks,
            at,
        ) + within && blocks.flatten()[place] == #[trigger] blocks[at][within];
}

/// Appends a block to the bytes of a file: the frame of the block's first
/// key, then the frame of its stored payload.  A key or a payload that is
/// too long for a frame is refused, and the file left as it was.
fn write_block(data: &mut Vec<u8>, first_key: &str, payload: &Vec<u8>) -> (result: Result<
    (),
    StoreError,
>)
    ensures
        result is Ok <==> encode_utf8(first_key@).len() <= MAX_FRAME_BYTES && payload@.len()
            <= MAX_FRAME_BYTES,
        result is Ok ==> final(data)@ == old(data)@ + entry_frames(
            encode_utf8(first_key@),
            stored(payload@),
        ),
        result matches Err(error) ==> error == StoreError::Oversized && final(data)@ == old(data)@,
{
    let encoded_key = encode(first_key.as_bytes());
    let encoded_payload = encode(compress(payload.as_slice()));
    match (encoded_key, encoded_payload) {
        (Ok(mut encoded_key), Ok(mut encoded_payload)) => {
            data.append(&mut encoded_key);
            data.append(&mut encoded_payload);
            Ok(())
        },
        _ => Err(StoreError::Oversized),
    }
}

/// The records that a block's payload holds, in their order.  A payload
/// that is not a sequence of records of UTF-8 text is reported corrupt.
pub fn block_records(payload: &Vec<u8>) -> (result: Result<Vec<(String, String)>, StoreError>)
    ensures
        match parse_payload(payload@) {
            Some(records) => result matches Ok(pairs) && records_of(pairs@) == records,
            None => result == Err::<Vec<(String, String)>, StoreError>(StoreError::Corruption),
        },
{
    let mut pairs: Vec<(String, String)> = Vec::new();
    let mut iterator = BlockIterator::new(payload);
    loop
        invariant
            iterator.well_formed(),
            match parse_payload(iterator@) {
                Some(tail) => parse_payload(payload@) == Some(records_of(pairs@) + tail),
                None => parse_payload(payload@) is None,
            },
        decreases iterator@.len(),
    {
        match iterator.next() {
            Some(Ok(pair)) => {
                pairs.push(pair);
            },
            Some(Err(error)) => {
                return Err(error);
            },
            None => {
                return Ok(pairs);
            },
        }
    }
}

/// Looks for `key` among the records of a block's payload.
fn find_in_block(payload: &Vec<u8>, key: &str, Ghost(block): Ghost<Seq<(Seq<char>, Seq<char>)>>) -> (found:
    Option<String>)
    requires
        payload@ == payload_of(block),
        forall|within: int| 0 <= within < block.len() ==> record_fits(#[trigger] block[within]),
    ensures
        match found {
            Some(value) => exists|within: int|
                0 <= within < block.len() && #[trigger] block[within] == (key@, value@),
            None => forall|within: int|
                0 <= within < block.len() ==> (#[trigger] block[within]).0 != key@,
        },
{
    let mut iterator = BlockIterator::new(payload);
    let ghost mut seen: int = 0;
    proof {
        assert(block.subrange(0, block.len() as int) =~= block);
    }
    loop
        invariant
            forall|within: int| 0 <= within < block.len() ==> record_fits(#[trigger] block[within]),
            iterator.well_formed(),
            0 <= seen <= block.len(),
            iterator@ == payload_of(block.subrange(seen, block.len() as int)),
            forall|within: int| 0 <= within < seen ==> (#[trigger] block[within]).0 != key@,
        decreases block.len() - seen,
    {
        proof {
            lemma_next_of_payload(block, seen);
        }
        match iterator.next() {
            Some(Ok((k, v))) => {
                if same_text(k.as_str(), key) {
                    return Some(v);
                }
                proof {
                    seen = seen + 1;
                }
            },
            Some(Err(_)) => unreached(),
            None => {
                return None;
            },
        }
    }
}

/// What a cursor at the record at `seen` of a block's payload reads next:
/// that record and then the payload of the records behind it, or nothing
/// at the end.
proof fn lemma_next_of_payload(block: Seq<(Seq<char>, Seq<char>)>, seen: int)
    requires
        0 <= seen <= block.len(),
        forall|within: int| 0 <= within < block.len() ==> record_fits(#[trigger] block[within]),
    ensures
        seen == block.len() ==> payload_of(block.subrange(seen, block.len() as int)).len() == 0,
        seen < block.len() ==> payload_of(block.subrange(seen, block.len() as int)).len() > 0
            && first_record(payload_of(block.subrange(seen, block.len() as int))) == Some(
            (block[seen], payload_of(block.subrange(seen + 1, block.len() as int))),
        ),
{
    let unread = block.subrange(seen, block.len() as int);
    if seen < block.len() {
        let rest = block.subrange(seen + 1, block.len() as int);
        assert(unread =~= seq![block[seen]] + rest);
        lemma_payload_concat(seq![block[seen]], rest);
        lemma_payload_single(block[seen]);
        lemma_first_record_of_frames(block[seen], payload_of(rest));
    }
}

/// A key that comes before the first key of every block is in none.
proof fn lemma_key_before_all_blocks(blocks: Seq<Seq<(Seq<char>, Seq<char>)>>, key: Seq<char>)
    requires
        blocks_valid(blocks),
        forall|at: int| 0 <= at < blocks.len() ==> text_precedes(key, #[trigger] blocks[at][0].0),
    ensures
        !records_map(blocks.flatten()).contains_key(key),
{
    let records = blocks.flatten();
    lemma_records_map_domain(records, key);
    if records_map(records).contains_key(key) {
        let place = choose|place: int|
            0 <= place < records.len() && #[trigger] records[place].0 == key;
        lemma_flatten_member(blocks, place);
        let (at, within) = choose|at: int, within: int|
            0 <= at < blocks.len() && 0 <= within < blocks[at].len() && place == records_before(
                blocks,
                at,
            ) + within && blocks.flatten()[place] == #[trigger] blocks[at][within];
        if within > 0 {
            lemma_block_order(blocks, at, 0, at, within);
            lemma_text_precedes_transitive(key, blocks[at][0].0, key);
        }
        lemma_text_precedes_total(key, key);
    }
}

/// A record of a block gives its key its value in the mapping of all the
/// records.
proof fn lemma_key_in_block(blocks: Seq<Seq<(Seq<char>, Seq<char>)>>, at: int, within: int)
    requires
        blocks_valid(blocks),
        0 <= at < blocks.len(),
        0 <= within < blocks[at].len(),
    ensures
        records_map(blocks.flatten()).contains_key(blocks[at][within].0),
        records_map(blocks.flatten())[blocks[at][within].0] == blocks[at][within].1,
{
    lemma_flatten_place(blocks, at, within);
    lemma_records_map_at(blocks.flatten(), records_before(blocks, at) + within);
}

/// A key that does not come before the first key of a block, comes before
/// the first key of every later block and is not in that block is in none.
proof fn lemma_key_in_no_block(blocks: Seq<Seq<(Seq<char>, Seq<char>)>>, at: int, key: Seq<char>)
    requires
        blocks_valid(blocks),
        0 <= at < blocks.len(),
        !text_precedes(key, blocks[at][0].0),
        forall|other: int|
            at < other < blocks.len() ==> text_precedes(key, #[trigger] blocks[other][0].0),
        forall|within: int|
            0 <= within < blocks[at].len() ==> (#[trigger] blocks[at][within]).0 != key,
    ensures
        !records_map(blocks.flatten()).contains_key(key),
{
    let records = blocks.flatten();
    lemma_records_map_domain(records, key);
    if records_map(records).contains_key(key) {
        let place = choose|place: int|
            0 <= place < records.len() && #[trigger] records[place].0 == key;
        lemma_flatten_member(blocks, place);
        let (other, within) = choose|other: int, within: int|
            0 <= other < blocks.len() && 0 <= within < blocks[other].len() && place
                == records_before(blocks, other) + within && blocks.flatten()[place]
                == #[trigger] blocks[other][within];
        lemma_text_precedes_total(key, key);
        if other < at {
            lemma_block_order(blocks, other, within, at, 0);
        } else if other > at {
            if within > 0 {
                lemma_block_order(blocks, other, 0, other, within);
                lemma_text_precedes_transitive(key, blocks[other][0].0, key);
            }
        }
    }
}

/// The mapping of each of the segments.
pub open spec fn segment_maps(segments: Seq<SegmentStore>) -> Seq<Map<Seq<char>, Seq<char>>> {
    Seq::new(segments.len(), |at: int| segments[at]@)
}

/// Whether each of the segments is valid.
pub open spec fn all_valid(segments: Seq<SegmentStore>) -> bool {
    forall|at: int| 0 <= at < segments.len() ==> (#[trigger] segments[at]).is_valid()
}

/// Whether the sequence numbers of the segments never descend.
pub open spec fn sequences_ascend(segments: Seq<SegmentStore>) -> bool {
    forall|i: int, j: int|
        0 <= i < j < segments.len() ==> (#[trigger] segments[i]).sequence() <= (
        #[trigger] segments[j]).sequence()
}

/// The mapping of segments laid one over the other in their order, so that
/// of two segments with one key the later one counts.
pub open spec fn segments_mapping(segments: Seq<SegmentStore>) -> Map<Seq<char>, Seq<char>> {
    layers(segment_maps(segments))
}

/// Whether `order` says how `before` was arranged to give `after`: the
/// segment at each place of `after` is the segment of `before` at the place
/// that `order` names, and no place of `before` is named twice.
pub open spec fn arranges(
    before: Seq<SegmentStore>,
    after: Seq<SegmentStore>,
    order: Seq<int>,
) -> bool {
    &&& order.len() == after.len()
    &&& after.len() == before.len()
    &&& forall|i: int|
        0 <= i < order.len() ==> 0 <= #[trigger] order[i] < before.len() && after[i]
            == before[order[i]]
    &&& forall|i: int, j: int|
        0 <= i < j < order.len() ==> #[trigger] order[i] != #[trigger] order[j]
}

/// Whether `order` keeps segments with one sequence number in the order
/// in which they stood.
pub open spec fn keeps_ties(after: Seq<SegmentStore>, order: Seq<int>) -> bool {
    forall|i: int, j: int|
        0 <= i < j < order.len() && after[i].sequence() == after[j].sequence()
            ==> #[trigger] order[i] < #[trigger] order[j]
}

/// Whether `after` is `before` in ascending order of the sequence numbers,
/// with segments of one sequence number in the order in which they stood.
pub open spec fn sorted_stably(before: Seq<SegmentStore>, after: Seq<SegmentStore>) -> bool {
    &&& sequences_ascend(after)
    &&& exists|order: Seq<int>| #[trigger] arranges(before, after, order) && keeps_ties(after, order)
}

/// Whether `order` says how the first `taken` segments of `before` were
/// arranged to give `sorted`, with segments of one sequence number in the
/// order in which they stood.
spec fn arranged_so_far(
    before: Seq<SegmentStore>,
    sorted: Seq<SegmentStore>,
    order: Seq<int>,
    taken: int,
) -> bool {
    &&& order.len() == sorted.len()
    &&& forall|i: int|
        0 <= i < order.len() ==> 0 <= #[trigger] order[i] < taken && sorted[i] == before[order[i]]
    &&& forall|i: int, j: int|
        0 <= i < j < order.len() ==> #[trigger] order[i] != #[trigger] order[j]
    &&& keeps_ties(sorted, order)
}

proof fn lemma_moved_multiset(sorted: Seq<SegmentStore>, unsorted: Seq<SegmentStore>, at: int)
    requires
        unsorted.len() > 0,
        0 <= at <= sorted.len(),
    ensures
        (sorted.insert(at, unsorted[0]) + unsorted.remove(0)).to_multiset() == (sorted
            + unsorted).to_multiset(),
{
    let segment = unsorted[0];
    let all = sorted + unsorted;
    let without = all.remove(sorted.len() as int);
    to_multiset_remove(all, sorted.len() as int);
    to_multiset_insert(without, at, segment);
    assert(sorted.insert(at, segment) + unsorted.remove(0) =~= without.insert(at, segment));
    to_multiset_contains(all, segment);
}

/// Puts a segment among segments in ascending order of their sequence
/// numbers: behind those whose sequence number is not greater than its own.
fn place_by_sequence(sorted: &mut Vec<SegmentStore>, segment: SegmentStore) -> (at: usize)
    requires
        all_valid(old(sorted)@),
        sequences_ascend(old(sorted)@),
        segment.is_valid(),
    ensures
        at <= old(sorted)@.len(),
        final(sorted)@ == old(sorted)@.insert(at as int, segment),
        all_valid(final(sorted)@),
        sequences_ascend(final(sorted)@),
        forall|j: int| at <= j < old(sorted)@.len() ==> (#[trigger] old(sorted)@[j]).sequence()
            > segment.sequence(),
{
    let ghost ordered = sorted@;
    let mut at: usize = sorted.len();
    while at > 0 && sorted[at - 1].get_sequence_number() > segment.get_sequence_number()
        invariant
            sorted@ == ordered,
            at <= ordered.len(),
            forall|j: int| at <= j < ordered.len() ==> (#[trigger] ordered[j]).sequence()
                > segment.sequence(),
        decreases at,
    {
        at -= 1;
    }
    sorted.insert(at, segment);
    at
}

/// Brings segments into ascending order of their sequence numbers.  Of two
/// segments with one sequence number the one that stood first stays first.
pub fn sort_by_sequence(segments: &mut Vec<SegmentStore>)
    requires
        all_valid(old(segments)@),
    ensures
        all_valid(final(segments)@),
        sequences_ascend(final(segments)@),
        sorted_stably(old(segments)@, final(segments)@),
        final(segments)@.to_multiset() == old(segments)@.to_multiset(),
{
    let mut sorted: Vec<SegmentStore> = Vec::new();
    let ghost mut order: Seq<int> = Seq::empty();
    while segments.len() > 0
        invariant
            all_valid(segments@),
            all_valid(sorted@),
            sequences_ascend(sorted@),
            (sorted@ + segments@).to_multiset() == old(segments)@.to_multiset(),
            sorted@.len() + segments@.len() == old(segments)@.len(),
            segments@ == old(segments)@.subrange(sorted@.len() as int, old(segments)@.len() as int),
            arranged_so_far(old(segments)@, sorted@, order, sorted@.len() as int),
        decreases segments@.len(),
    {
        let ghost unsorted = segments@;
        let ghost ordered = sorted@;
        let ghost taken = sorted@.len() as int;
        let segment = segments.remove(0);
        let at = place_by_sequence(&mut sorted, segment);
        proof {
            lemma_moved_multiset(ordered, unsorted, at as int);
            order = order.insert(at as int, taken);
        }
    }
    proof {
        assert(arranges(old(segments)@, sorted@, order));
    }
    *segments = sorted;
}

/// Merges segments into one new segment.
///
/// The segments are first brought into ascending order of their sequence
/// numbers.  The new segment holds every key of every segment once, and a
/// key that several segments hold has the value that the segment with the
/// greatest sequence number gives it.  Its sequence number is the least of
/// the sequence numbers, or 0 where there is no segment.  The merge is
/// refused as oversized exactly where the payload of a block of the new
/// segment would be too long for a frame.
pub fn compact(file_name: String, segments: &mut Vec<SegmentStore>) -> (result: Result<
    SegmentStore,
    StoreError,
>)
    requires
        all_valid(old(segments)@),
    ensures
        all_valid(final(segments)@),
        sorted_stably(old(segments)@, final(segments)@),
        final(segments)@.to_multiset() == old(segments)@.to_multiset(),
        result is Ok <==> writable(ascending_records(segments_mapping(final(segments)@))),
        result matches Ok(compacted) ==> {
            &&& compacted.is_valid()
            &&& compacted@ == segments_mapping(final(segments)@)
            &&& compacted.blocks() == greedy_blocks(
                ascending_records(segments_mapping(final(segments)@)),
            )
            &&& compacted.name() == file_name@
            &&& final(segments)@.len() == 0 ==> compacted.sequence() == 0
            &&& final(segments)@.len() > 0 ==> compacted.sequence() == final(segments)@[0].sequence()
            &&& forall|at: int|
                0 <= at < final(segments)@.len() ==> compacted.sequence() <= (
                #[trigger] final(segments)@[at]).sequence()
        },
        result matches Err(error) ==> error == StoreError::Oversized,
{
    sort_by_sequence(segments);
    let mut lists: Vec<Vec<(String, String)>> = Vec::new();
    let mut at: usize = 0;
    while at < segments.len()
        invariant
            all_valid(segments@),
            at <= segments@.len(),
            lists@.len() == at,
            forall|j: int| 0 <= j < at ==> records_of((#[trigger] lists@[j])@) == segments@[j].records(),
        decreases segments@.len() - at,
    {
        lists.push(segments[at].iter());
        at += 1;
    }
    let sequence_number = if segments.len() > 0 {
        segments[0].get_sequence_number()
    } else {
        0
    };
    proof {
        let sources = sources_of(lists@);
        assert(source_maps(sources) =~= segment_maps(segments@));
    }
    let merged = merge(&lists);
    proof {
        lemma_ascending_records(records_of(merged@));
    }
    SegmentStore::create_from_iterator(file_name, sequence_number, merged)
}

/// A valid segment is what loading its file gives: its bytes hold its
/// sequence number and its blocks, and no others.
pub proof fn lemma_loaded_of_image(segment: SegmentStore)
    requires
        segment.is_valid(),
    ensures
        loaded(segment.image()) == Some((segment.sequence(), segment.blocks())),
{
    lemma_parse_segment_of(segment.sequence() as u64, segment.blocks());
}

/// Two valid segments with the same bytes have the same sequence number
/// and the same records.
pub proof fn lemma_image_determines(first: SegmentStore, second: SegmentStore)
    requires
        first.is_valid(),
        second.is_valid(),
        first.image() == second.image(),
    ensures
        first.sequence() == second.sequence(),
        first.blocks() == second.blocks(),
        first@ == second@,
{
    lemma_loaded_of_image(first);
    lemma_loaded_of_image(second);
}

/// A lookup in a segment finds every record of the segment, and nothing
/// else: a key of one of the records has the value of that record, and a
/// key of none of them has no value.
pub proof fn lemma_point_get(segment: SegmentStore, key: Seq<char>, found: Option<String>)
    requires
        segment.is_valid(),
        answers(found, segment@, key),
    ensures
        forall|at: int|
            0 <= at < segment.records().len() && (#[trigger] segment.records()[at]).0 == key ==> (
            found matches Some(value) && value@ == segment.records()[at].1),
        (forall|at: int|
            0 <= at < segment.records().len() ==> (#[trigger] segment.records()[at]).0 != key)
            ==> found is None,
{
    let records = segment.records();
    lemma_records_map_domain(records, key);
    assert forall|at: int| 0 <= at < records.len() && (#[trigger] records[at]).0 == key implies (
    found matches Some(value) && value@ == records[at].1) by {
        lemma_records_map_at(records, at);
    }
}

/// A segment that has the mapping of segments laid one over the other
/// gives each key the value of the last of the segments with that key:
/// with the segments in ascending order of their sequence numbers, the one
/// with the greatest.
pub proof fn lemma_compaction_keeps_latest(
    segments: Seq<SegmentStore>,
    compacted: SegmentStore,
    key: Seq<char>,
    latest: int,
)
    requires
        compacted@ == segments_mapping(segments),
        0 <= latest < segments.len(),
        segments[latest]@.contains_key(key),
        forall|later: int|
            latest < later < segments.len() ==> !(#[trigger] segments[later])@.contains_key(key),
    ensures
        compacted@.contains_key(key),
        compacted@[key] == segments[latest]@[key],
{
    let maps = segment_maps(segments);
    lemma_layers_top(maps, key, latest);
}

/// A segment that has the mapping of segments laid one over the other has
/// no key but theirs.
pub proof fn lemma_compaction_adds_nothing(
    segments: Seq<SegmentStore>,
    compacted: SegmentStore,
    key: Seq<char>,
)
    requires
        compacted@ == segments_mapping(segments),
        forall|at: int| 0 <= at < segments.len() ==> !(#[trigger] segments[at])@.contains_key(key),
    ensures
        !compacted@.contains_key(key),
{
    let maps = segment_maps(segments);
    lemma_layers_domain(maps, key);
}

} // verus!
