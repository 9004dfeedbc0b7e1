//! The database: a memory table over a write-ahead log, and behind them the
//! segments that earlier flushes of the table have written.

use vstd::prelude::*;
use vstd::pervasive::unreached;
use vstd::std_specs::iter::IteratorSpec;
use vstd::string::StringExecFns;
use crate::GetResult;
use crate::SetResult;
use crate::Storage;
use crate::StoreError;
use crate::format::greedy_blocks;
use crate::format::writable;
use crate::log_store::LogStore;
use crate::log_store::parse_log;
use crate::log_store::record_line;
use crate::memory_store::MemoryStore;
use crate::model::answers;
use crate::model::ascending_records;
use crate::model::lemma_ascending_records;
use crate::model::lemma_layers_domain;
use crate::model::lemma_layers_push;
use crate::model::lemma_layers_top;
use crate::model::lemma_records_map_push;
use crate::model::records_map;
use crate::model::records_of;
use crate::model::total_bytes;
use crate::segment_store::SegmentStore;
use crate::segment_store::all_valid;
use crate::segment_store::lemma_image_determines;
use crate::segment_store::lemma_loaded_of_image;
use crate::segment_store::load_from_file;
use crate::segment_store::loaded;
use crate::segment_store::segment_maps;
use crate::segment_store::segments_mapping;

verus! {

/// The byte count of the memory table above which the table is flushed to
/// a segment.
pub const MAX_MEMORY_USAGE: usize = 100_000;

/// Whether the sequence numbers of the segments ascend strictly.
pub open spec fn sequences_strictly_ascend(segments: Seq<SegmentStore>) -> bool {
    forall|i: int, j: int|
        0 <= i < j < segments.len() ==> (#[trigger] segments[i]).sequence() < (
        #[trigger] segments[j]).sequence()
}

/// Whether a replay of `records` into an empty memory table never brings
/// the byte count of the table above a machine word.
pub open spec fn replay_fits(records: Seq<(Seq<char>, Seq<char>)>) -> bool {
    forall|upto: int|
        0 <= upto <= records.len() ==> total_bytes(
            ascending_records(records_map(#[trigger] records.subrange(0, upto))),
        ) <= usize::MAX
}

/// A text identifier that `Uuid::new_v4` of the crate `uuid` drew at
/// random, as `Uuid` prints it: in the hyphenated form, which has 36
/// characters.  Nothing else is claimed of the text: two calls may give any
/// two texts.  The call ends the program where the system has no random
/// bytes to give.
#[verifier::external_body]
fn random_identifier() -> (text: String)
    ensures
        text@.len() == 36,
{
    uuid::Uuid::new_v4().to_string()
}

/// The store: the memory table with the freshest writes, the log that
/// records them, and the segments in ascending order of their sequence
/// numbers.
pub struct Database {
    memory: MemoryStore,
    log: LogStore,
    segments: Vec<SegmentStore>,
}

impl View for Database {
    type V = Map<Seq<char>, Seq<char>>;

    /// The value of each key of the store: the value that the memory table
    /// gives it, else the value that the segment with the greatest sequence
    /// number among those with the key gives it.
    open spec fn view(&self) -> Map<Seq<char>, Seq<char>> {
        segments_mapping(self.segments()).union_prefer_right(self.memory()@)
    }
}

impl Database {
    /// The memory table.
    pub closed spec fn memory(&self) -> MemoryStore {
        self.memory
    }

    /// The write-ahead log.
    pub closed spec fn log(&self) -> LogStore {
        self.log
    }

    /// The segments, in ascending order of their sequence numbers.
    pub closed spec fn segments(&self) -> Seq<SegmentStore> {
        self.segments@
    }

    /// The memory table holds what a replay of the log gives, and such a
    /// replay succeeds; the segments are valid, and their sequence numbers
    /// ascend strictly.
    pub open spec fn is_valid(&self) -> bool {
        &&& self.memory().is_valid()
        &&& self.log().is_valid()
        &&& self.memory()@ == records_map(self.log().records())
        &&& replay_fits(self.log().records())
        &&& all_valid(self.segments())
        &&& sequences_strictly_ascend(self.segments())
    }

    /// The sequence number that the next segment gets: one more than the
    /// greatest so far, and 1 where there is no segment.
    pub open spec fn next_sequence(&self) -> int {
        if self.segments().len() == 0 {
            1
        } else {
            self.segments().last().sequence() + 1
        }
    }

    /// Opens the store from what its directory holds: the files of its
    /// segments, each with its name and its bytes, in any order, and the
    /// text of its log.
    ///
    /// Each file is loaded as a segment, and the segments are brought into
    /// ascending order of their sequence numbers; then the log is replayed
    /// into an empty memory table.  The directory is reported corrupt where
    /// a file is no segment file, where two segments have one sequence
    /// number, or where the text of the log is malformed.
    pub fn new(segment_files: Vec<(String, Vec<u8>)>, log_contents: String) -> (result: Result<
        Database,
        StoreError,
    >)
        ensures
            result is Ok <==> can_open(files_of(segment_files@), log_contents@),
            result matches Ok(database) ==> opened_from(
                files_of(segment_files@),
                log_contents@,
                database,
            ),
            result matches Err(error) ==> error == if can_open_segments(files_of(segment_files@))
                && parse_log(log_contents@) is Some {
                StoreError::Capacity
            } else {
                StoreError::Corruption
            },
    {
        let ghost files = files_of(segment_files@);
        let mut remaining = segment_files;
        let mut segments: Vec<SegmentStore> = Vec::new();
        while remaining.len() > 0
            invariant
                files == files_of(segment_files@),
                remaining@.len() <= files.len(),
                files_of(remaining@) == files.subrange(0, remaining@.len() as int),
                all_valid(segments@),
                sequences_strictly_ascend(segments@),
                forall|i: int|
                    remaining@.len() <= i < files.len() ==> holds_file(segments@, #[trigger] files[i]),
                forall|at: int|
                    0 <= at < segments@.len() ==> is_among(
                        files,
                        remaining@.len() as int,
                        #[trigger] segments@[at],
                    ),
                forall|i: int|
                    remaining@.len() <= i < files.len() ==> loaded((#[trigger] files[i]).1) is Some,
                forall|i: int, j: int|
                    remaining@.len() <= i < j < files.len() ==> sequence_in((#[trigger] files[i]).1)
                        != sequence_in((#[trigger] files[j]).1),
            decreases remaining@.len(),
        {
            let ghost before = segments@;
            let ghost here = remaining@.len() - 1;
            let ghost prior = remaining@;
            let (name, data) = match remaining.pop() {
                Some(file) => file,
                None => unreached(),
            };
            proof {
                assert(files[here] == files_of(prior)[here]);
            }
            let segment = match load_from_file(name, data) {
                Ok(segment) => segment,
                Err(error) => {
                    return Err(error);
                },
            };
            proof {
                assert forall|at: int| 0 <= at < before.len() implies (#[trigger] before[at]).sequence()
                    == sequence_in(before[at].image()) by {
                    lemma_loaded_of_image(before[at]);
                }
            }
            if !insert_by_sequence(&mut segments, segment) {
                proof {
                    let at = choose|at: int|
                        0 <= at < before.len() && (#[trigger] before[at]).sequence()
                            == segment.sequence();
                    let i = choose|i: int|
                        here < i < files.len() && #[trigger] files[i] == file_of(before[at]);
                    assert(sequence_in(files[here].1) == sequence_in(files[i].1));
                }
                return Err(StoreError::Corruption);
            }
            proof {
                let place = choose|place: int|
                    0 <= place <= before.len() && segments@ == before.insert(place, segment);
                assert(segments@[place] == segment);
                assert forall|i: int| here <= i < files.len() implies holds_file(
                    segments@,
                    #[trigger] files[i],
                ) by {
                    if i != here {
                        let at = choose|at: int|
                            0 <= at < before.len() && file_of(#[trigger] before[at]) == files[i];
                        if at < place {
                            assert(segments@[at] == before[at]);
                        } else {
                            assert(segments@[at + 1] == before[at]);
                        }
                    }
                }
            }
        }
        let log = match LogStore::init(log_contents) {
            Ok(log) => log,
            Err(error) => {
                return Err(error);
            },
        };
        let entries = match log.iter() {
            Ok(entries) => entries,
            Err(error) => {
                return Err(error);
            },
        };
        let ghost records = records_of(entries@);
        let mut memory = MemoryStore::new();
        let mut i: usize = 0;
        proof {
            lemma_ascending_records(Seq::empty());
        }
        while i < entries.len()
            invariant
                files == files_of(segment_files@),
                can_open_segments(files),
                parse_log(log_contents@) == Some(records),
                records == records_of(entries@),
                i <= entries@.len(),
                memory.is_valid(),
                memory@ == records_map(records.subrange(0, i as int)),
                forall|upto: int|
                    0 <= upto <= i ==> total_bytes(
                        ascending_records(records_map(#[trigger] records.subrange(0, upto))),
                    ) <= usize::MAX,
            decreases entries@.len() - i,
        {
            let ghost before = records.subrange(0, i as int);
            let ghost longer = records.subrange(0, i + 1);
            proof {
                assert(longer =~= before.push(records[i as int]));
                lemma_records_map_push(before, records[i as int].0, records[i as int].1);
            }
            match memory.set(entries[i].0.as_str(), entries[i].1.as_str()) {
                Ok(()) => {},
                Err(error) => {
                    return Err(error);
                },
            }
            i += 1;
        }
        proof {
            assert(records.subrange(0, i as int) =~= records);
        }
        Ok(Database { memory, log, segments })
    }

    /// The memory table.
    pub fn memory_store(&self) -> (memory: &MemoryStore)
        ensures
            *memory == self.memory(),
    {
        &self.memory
    }

    /// The write-ahead log.
    pub fn log_store(&self) -> (log: &LogStore)
        ensures
            *log == self.log(),
    {
        &self.log
    }

    /// The segments, in ascending order of their sequence numbers.
    pub fn segment_stores(&self) -> (segments: &Vec<SegmentStore>)
        ensures
            segments@ == self.segments(),
    {
        &self.segments
    }

    /// Writes the memory table to a new segment under the name `file_name`,
    /// then empties the table and the log.
    ///
    /// The segment gets the next sequence number and a place behind the
    /// other segments.  Where that number does not fit in a machine word,
    /// or the records of the table cannot be written, the flush is refused
    /// and the store stays as it is: the table is not emptied and the log
    /// is not cut.
    pub fn flush(&mut self, file_name: String) -> (result: Result<(), StoreError>)
        requires
            old(self).is_valid(),
        ensures
            final(self).is_valid(),
            final(self)@ == old(self)@,
            result is Ok <==> old(self).next_sequence() <= usize::MAX && writable(
                old(self).memory().records(),
            ),
            result is Ok ==> {
                &&& final(self).segments().len() == old(self).segments().len() + 1
                &&& final(self).segments().drop_last() == old(self).segments()
                &&& final(self).segments().last().records() == old(self).memory().records()
                &&& final(self).segments().last().blocks() == greedy_blocks(
                    old(self).memory().records(),
                )
                &&& final(self).segments().last().sequence() == old(self).next_sequence()
                &&& final(self).segments().last().name() == file_name@
                &&& final(self).segments().last().is_valid()
                &&& final(self).memory().records() == Seq::<(Seq<char>, Seq<char>)>::empty()
                &&& final(self).log()@ == Seq::<char>::empty()
            },
            result matches Err(error) ==> {
                &&& *final(self) == *old(self)
                &&& error == if old(self).next_sequence() > usize::MAX {
                    StoreError::Capacity
                } else {
                    StoreError::Oversized
                }
            },
    {
        let count = self.segments.len();
        let sequence_number = if count == 0 {
            1
        } else {
            let last = self.segments[count - 1].get_sequence_number();
            if last == usize::MAX {
                return Err(StoreError::Capacity);
            }
            last + 1
        };
        let segment = match SegmentStore::create_from_iterator(
            file_name,
            sequence_number,
            self.memory.iter(),
        ) {
            Ok(segment) => segment,
            Err(error) => {
                return Err(error);
            },
        };
        let ghost before = self.segments@;
        self.segments.push(segment);
        self.memory = MemoryStore::new();
        self.log.flush();
        proof {
            let after = self.segments@;
            assert(segment_maps(after) =~= segment_maps(before).push(segment@));
            lemma_layers_push(segment_maps(before), segment@);
            assert forall|upto: int| 0 <= upto <= 0 implies total_bytes(
                ascending_records(
                    records_map(
                        #[trigger] Seq::<(Seq<char>, Seq<char>)>::empty().subrange(0, upto),
                    ),
                ),
            ) <= usize::MAX by {
                lemma_ascending_records(Seq::empty());
            }
        }
        Ok(())
    }

    /// The value of `key` in the segment with the greatest sequence number
    /// among those with the key: the segments are asked from the last to
    /// the first.  A segment that fails ends the lookup with its error.
    fn get_from_segments(&self, key: &str) -> (result: GetResult)
        requires
            all_valid(self.segments()),
        ensures
            result matches Ok(found) && answers(found, segments_mapping(self.segments()), key@),
    {
        let ghost maps = segment_maps(self.segments@);
        let mut at: usize = self.segments.len();
        while at > 0
            invariant
                all_valid(self.segments@),
                maps == segment_maps(self.segments@),
                at <= self.segments@.len(),
                forall|later: int|
                    at <= later < maps.len() ==> !(#[trigger] maps[later]).contains_key(key@),
            decreases at,
        {
            at -= 1;
            match self.segments[at].get(key) {
                Ok(Some(value)) => {
                    proof {
                        lemma_layers_top(maps, key@, at as int);
                    }
                    return Ok(Some(value));
                },
                Ok(None) => {},
                Err(error) => {
                    return Err(error);
                },
            }
        }
        proof {
            lemma_layers_domain(maps, key@);
        }
        Ok(None)
    }
}

impl Storage for Database {
    open spec fn well_formed(&self) -> bool {
        self.is_valid()
    }

    open spec fn mapping(&self) -> Map<Seq<char>, Seq<char>> {
        self@
    }

    /// Records the write in the log and in the memory table.  Where the
    /// byte count of the table is then above `MAX_MEMORY_USAGE`, the table
    /// is flushed to a new segment with a name drawn at random.
    ///
    /// The write is refused, and the store left as it was, only where the
    /// byte count of the table would not fit in a machine word.  A flush
    /// that is refused is reported, but the write stays recorded.
    fn set(&mut self, key: &str, value: &str) -> (result: SetResult)
        ensures
            old(self).memory().counted_with(key@, value@) > usize::MAX ==> {
                &&& result == Err::<(), StoreError>(StoreError::Capacity)
                &&& final(self)@ == old(self)@
                &&& final(self).log() == old(self).log()
                &&& final(self).segments() == old(self).segments()
            },
            old(self).memory().counted_with(key@, value@) <= usize::MAX ==> final(self)@ == old(
                self,
            )@.insert(key@, value@),
            old(self).memory().counted_with(key@, value@) <= MAX_MEMORY_USAGE ==> {
                &&& result is Ok
                &&& final(self).segments() == old(self).segments()
                &&& final(self).memory()@ == old(self).memory()@.insert(key@, value@)
                &&& final(self).log()@ == old(self).log()@ + record_line(key@, value@)
            },
            MAX_MEMORY_USAGE < old(self).memory().counted_with(key@, value@) <= usize::MAX ==> {
                &&& result is Ok <==> old(self).next_sequence() <= usize::MAX && writable(
                    ascending_records(old(self).memory()@.insert(key@, value@)),
                )
                &&& result is Ok ==> {
                    &&& final(self).segments().len() == old(self).segments().len() + 1
                    &&& final(self).segments().drop_last() == old(self).segments()
                    &&& final(self).segments().last()@ == old(self).memory()@.insert(key@, value@)
                    &&& final(self).segments().last().sequence() == old(self).next_sequence()
                    &&& is_fresh_segment_name(final(self).segments().last().name())
                    &&& final(self).memory().records() == Seq::<(Seq<char>, Seq<char>)>::empty()
                    &&& final(self).log()@ == Seq::<char>::empty()
                }
                &&& result matches Err(error) ==> {
                    &&& final(self).segments() == old(self).segments()
                    &&& final(self).memory()@ == old(self).memory()@.insert(key@, value@)
                    &&& final(self).log()@ == old(self).log()@ + record_line(key@, value@)
                    &&& error == if old(self).next_sequence() > usize::MAX {
                        StoreError::Capacity
                    } else {
                        StoreError::Oversized
                    }
                }
            },
    {
        let ghost records = self.log.records();
        match self.memory.set(key, value) {
            Ok(()) => {},
            Err(error) => {
                return Err(error);
            },
        }
        let _ = self.log.set(key, value);
        proof {
            lemma_ascending_records(self.memory.records());
            let longer = records.push((key@, value@));
            assert forall|upto: int| 0 <= upto <= longer.len() implies total_bytes(
                ascending_records(records_map(#[trigger] longer.subrange(0, upto))),
            ) <= usize::MAX by {
                if upto < longer.len() {
                    assert(longer.subrange(0, upto) =~= records.subrange(0, upto));
                } else {
                    assert(longer.subrange(0, upto) =~= longer);
                }
            }
        }
        if self.memory.usage() > MAX_MEMORY_USAGE {
            self.flush(fresh_segment_name())
        } else {
            Ok(())
        }
    }

    /// The value of `key`: the value that the memory table holds for it;
    /// else the value that the first segment with the key holds for it,
    /// from the segment with the greatest sequence number to the one with
    /// the least; else nothing.  A lookup always succeeds.
    fn get(&self, key: &str) -> (result: GetResult)
        ensures
            result is Ok,
    {
        match self.memory.get(key) {
            Ok(Some(value)) => Ok(Some(value)),
            Ok(None) => self.get_from_segments(key),
            Err(error) => Err(error),
        }
    }
}

/// The ending of the name of a segment file.
pub open spec fn segment_suffix() -> Seq<char> {
    seq!['.', 's', 'e', 'g']
}

/// Whether `name` is the name of a segment file: it ends in `.seg`.
pub open spec fn is_segment_name(name: Seq<char>) -> bool {
    name.len() >= 4 && name.subrange(name.len() - 4, name.len() as int) == segment_suffix()
}

/// Whether `name` is a name that the store gives to a new segment file: an
/// identifier of 36 characters, then `.seg`.
pub open spec fn is_fresh_segment_name(name: Seq<char>) -> bool {
    name.len() == 40 && is_segment_name(name)
}

/// Whether `name` is the name of a segment file: it ends in `.seg`.
pub fn is_segment_file(name: &str) -> (is_segment: bool)
    ensures
        is_segment == is_segment_name(name@),
{
    let mut chars = name.chars();
    let mut seen: u8 = 0;
    let mut last = ('\0', '\0', '\0', '\0');
    let ghost mut read: Seq<char> = Seq::empty();
    loop
        invariant
            chars.obeys_prophetic_iter_laws(),
            chars.decrease() is Some,
            read + chars.remaining() == name@,
            seen <= 4,
            seen == if read.len() < 4 {
                read.len()
            } else {
                4
            },
            read.len() >= 1 ==> last.3 == read[read.len() - 1],
            read.len() >= 2 ==> last.2 == read[read.len() - 2],
            read.len() >= 3 ==> last.1 == read[read.len() - 3],
            read.len() >= 4 ==> last.0 == read[read.len() - 4],
        decreases chars.decrease()->0,
    {
        match chars.next() {
            Some(ch) => {
                last = (last.1, last.2, last.3, ch);
                if seen < 4 {
                    seen += 1;
                }
                proof {
                    read = read.push(ch);
                }
            },
            None => {
                proof {
                    if read.len() >= 4 {
                        assert(read.subrange(read.len() - 4, read.len() as int) =~= seq![
                            last.0,
                            last.1,
                            last.2,
                            last.3,
                        ]);
                    }
                }
                return seen == 4 && last.0 == '.' && last.1 == 's' && last.2 == 'e' && last.3
                    == 'g';
            },
        }
    }
}

/// A name for a new segment file: an identifier drawn at random, with the
/// ending of a segment file.
fn fresh_segment_name() -> (name: String)
    ensures
        is_fresh_segment_name(name@),
{
    let identifier = random_identifier();
    let name = identifier.concat(".seg");
    proof {
        reveal_strlit(".seg");
        assert(name@.subrange(name@.len() - 4, name@.len() as int) =~= segment_suffix());
    }
    name
}

/// The files that a directory holds, each as the text of its name and its
/// bytes.
pub open spec fn files_of(files: Seq<(String, Vec<u8>)>) -> Seq<(Seq<char>, Seq<u8>)> {
    Seq::new(files.len(), |i: int| (files[i].0@, files[i].1@))
}

/// The file of a segment: its name and its bytes.
pub open spec fn file_of(segment: SegmentStore) -> (Seq<char>, Seq<u8>) {
    (segment.name(), segment.image())
}

/// The files of the segments of a store, in the order of the segments.
pub open spec fn files_of_segments(segments: Seq<SegmentStore>) -> Seq<(Seq<char>, Seq<u8>)> {
    Seq::new(segments.len(), |at: int| file_of(segments[at]))
}

/// Whether one of the segments has the file `file`.
pub open spec fn holds_file(segments: Seq<SegmentStore>, file: (Seq<char>, Seq<u8>)) -> bool {
    exists|at: int| 0 <= at < segments.len() && file_of(#[trigger] segments[at]) == file
}

/// The sequence number that the bytes of a segment file hold.
pub open spec fn sequence_in(data: Seq<u8>) -> usize {
    match loaded(data) {
        Some((sequence_number, _)) => sequence_number,
        None => 0,
    }
}

/// Whether the files are segment files with sequence numbers of which no
/// two are equal.
pub open spec fn can_open_segments(files: Seq<(Seq<char>, Seq<u8>)>) -> bool {
    &&& forall|i: int| 0 <= i < files.len() ==> loaded((#[trigger] files[i]).1) is Some
    &&& forall|i: int, j: int|
        0 <= i < j < files.len() ==> sequence_in((#[trigger] files[i]).1) != sequence_in(
            (#[trigger] files[j]).1,
        )
}

/// Whether a directory with these segment files and this log can be
/// opened: the files are segment files with different sequence numbers, the
/// log is well formed, and its replay fits.
pub open spec fn can_open(files: Seq<(Seq<char>, Seq<u8>)>, log_text: Seq<char>) -> bool {
    &&& can_open_segments(files)
    &&& parse_log(log_text) matches Some(records) && replay_fits(records)
}

/// Whether `database` is a store opened from these segment files and this
/// log: it is valid, its log is the text, every file is the file of one of
/// its segments, and each of its segments has one of the files.
pub open spec fn opened_from(
    files: Seq<(Seq<char>, Seq<u8>)>,
    log_text: Seq<char>,
    database: Database,
) -> bool {
    &&& database.is_valid()
    &&& database.log()@ == log_text
    &&& forall|i: int| 0 <= i < files.len() ==> holds_file(database.segments(), #[trigger] files[i])
    &&& forall|at: int|
        0 <= at < database.segments().len() ==> is_among(
            files,
            0,
            #[trigger] database.segments()[at],
        )
}

/// Whether the file of `segment` is one of the files from the place `from`
/// on.
pub open spec fn is_among(files: Seq<(Seq<char>, Seq<u8>)>, from: int, segment: SegmentStore) -> bool {
    exists|i: int| from <= i < files.len() && #[trigger] files[i] == file_of(segment)
}

/// Puts a segment at its place among segments in ascending order of their
/// sequence numbers, unless one of them has its sequence number.
fn insert_by_sequence(segments: &mut Vec<SegmentStore>, segment: SegmentStore) -> (inserted: bool)
    requires
        all_valid(old(segments)@),
        sequences_strictly_ascend(old(segments)@),
        segment.is_valid(),
    ensures
        all_valid(final(segments)@),
        sequences_strictly_ascend(final(segments)@),
        inserted <==> forall|at: int|
            0 <= at < old(segments)@.len() ==> (#[trigger] old(segments)@[at]).sequence()
                != segment.sequence(),
        inserted ==> exists|place: int|
            0 <= place <= old(segments)@.len() && final(segments)@ == old(segments)@.insert(
                place,
                segment,
            ),
        !inserted ==> final(segments)@ == old(segments)@,
{
    let ghost before = segments@;
    let sequence_number = segment.get_sequence_number();
    let mut place: usize = segments.len();
    while place > 0 && segments[place - 1].get_sequence_number() > sequence_number
        invariant
            segments@ == before,
            place <= before.len(),
            forall|at: int| place <= at < before.len() ==> (#[trigger] before[at]).sequence()
                > sequence_number,
        decreases place,
    {
        place -= 1;
    }
    if place > 0 && segments[place - 1].get_sequence_number() == sequence_number {
        return false;
    }
    segments.insert(place, segment);
    true
}

/// Whether one of the segments `others` has the bytes of `segment`.
spec fn has_image(others: Seq<SegmentStore>, segment: SegmentStore) -> bool {
    exists|other: int|
        0 <= other < others.len() && (#[trigger] others[other]).image() == segment.image()
}

/// Whether each of the segments has the bytes of one of the others.
spec fn images_among(segments: Seq<SegmentStore>, others: Seq<SegmentStore>) -> bool {
    forall|at: int| 0 <= at < segments.len() ==> has_image(others, #[trigger] segments[at])
}

/// Whether the segments are valid and in strictly ascending order of their
/// sequence numbers.
spec fn in_order(segments: Seq<SegmentStore>) -> bool {
    all_valid(segments) && sequences_strictly_ascend(segments)
}

proof fn lemma_in_order_front(segments: Seq<SegmentStore>)
    requires
        in_order(segments),
        segments.len() > 0,
    ensures
        in_order(segments.drop_last()),
        segment_maps(segments).drop_last() == segment_maps(segments.drop_last()),
        forall|at: int|
            0 <= at < segments.len() - 1 ==> (#[trigger] segments[at]).sequence()
                < segments.last().sequence(),
{
}

/// The sequence number of a segment whose bytes one of the segments has is
/// at most the sequence number of the last of them.
proof fn lemma_at_most_last(others: Seq<SegmentStore>, segment: SegmentStore)
    requires
        in_order(others),
        segment.is_valid(),
        has_image(others, segment),
    ensures
        others.len() > 0,
        segment.sequence() <= others.last().sequence(),
        segment.sequence() == others.last().sequence() ==> segment.image() == others.last().image(),
        segment.sequence() < others.last().sequence() ==> has_image(others.drop_last(), segment),
{
    let other = choose|other: int|
        0 <= other < others.len() && (#[trigger] others[other]).image() == segment.image();
    lemma_image_determines(others[other], segment);
    if other < others.len() - 1 {
        assert(others.drop_last()[other] == others[other]);
    }
}

proof fn lemma_fronts_among(first: Seq<SegmentStore>, second: Seq<SegmentStore>)
    requires
        in_order(first),
        in_order(second),
        images_among(first, second),
        first.len() > 0,
        second.len() > 0,
        first.last().sequence() == second.last().sequence(),
    ensures
        images_among(first.drop_last(), second.drop_last()),
{
    let front = first.drop_last();
    assert forall|at: int| 0 <= at < front.len() implies has_image(
        second.drop_last(),
        #[trigger] front[at],
    ) by {
        lemma_at_most_last(second, first[at]);
    }
}

/// Valid segments in strictly ascending order of their sequence numbers
/// that have the same files have the same mapping.
proof fn lemma_same_images_same_mapping(first: Seq<SegmentStore>, second: Seq<SegmentStore>)
    requires
        in_order(first),
        in_order(second),
        images_among(first, second),
        images_among(second, first),
    ensures
        segments_mapping(first) == segments_mapping(second),
    decreases first.len(),
{
    if first.len() > 0 {
        lemma_at_most_last(second, first.last());
        lemma_at_most_last(first, second.last());
        lemma_image_determines(first.last(), second.last());
        lemma_fronts_among(first, second);
        lemma_fronts_among(second, first);
        lemma_in_order_front(first);
        lemma_in_order_front(second);
        lemma_same_images_same_mapping(first.drop_last(), second.drop_last());
    }
}

/// A store that is closed and opened again answers as before: whatever
/// store is opened from the files of the segments of a valid store, in any
/// order, and from the text of its log, gives every key the value that the
/// store gave it.
pub proof fn lemma_reopened_answers_alike(
    database: Database,
    files: Seq<(Seq<char>, Seq<u8>)>,
    reopened: Database,
)
    requires
        database.is_valid(),
        forall|at: int|
            0 <= at < database.segments().len() ==> is_among(
                files,
                0,
                #[trigger] database.segments()[at],
            ),
        forall|i: int| 0 <= i < files.len() ==> holds_file(database.segments(), #[trigger] files[i]),
        opened_from(files, database.log()@, reopened),
    ensures
        reopened@ == database@,
{
    let first = database.segments();
    let second = reopened.segments();
    lemma_same_images_same_mapping(first, second);
}

/// A valid store can be opened again from the files of its segments and the
/// text of its log.
pub proof fn lemma_can_reopen(database: Database)
    requires
        database.is_valid(),
    ensures
        can_open(files_of_segments(database.segments()), database.log()@),
{
    let segments = database.segments();
    let files = files_of_segments(segments);
    assert forall|i: int| 0 <= i < files.len() implies loaded((#[trigger] files[i]).1) is Some
        && sequence_in(files[i].1) == segments[i].sequence() by {
        lemma_loaded_of_image(segments[i]);
    }
}

/// A directory without segment files and with an empty log can be opened.
pub proof fn lemma_empty_directory_opens()
    ensures
        can_open(Seq::empty(), Seq::empty()),
{
    let none = Seq::<(Seq<char>, Seq<char>)>::empty();
    lemma_ascending_records(none);
}

} // verus!
