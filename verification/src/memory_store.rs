//! The in-memory table: keys in ascending order, each with its current
//! value, and a count of the bytes that they take.

use vstd::prelude::*;
use vstd::utf8::encode_utf8;
use crate::GetResult;
use crate::SetResult;
use crate::Storage;
use crate::StoreError;
use crate::model::ascending_records;
use crate::model::lemma_ascending_records;
use crate::model::lemma_records_map_at;
use crate::model::lemma_records_map_domain;
use crate::model::lemma_records_map_insert;
use crate::model::lemma_records_map_update;
use crate::model::lemma_total_bytes_insert;
use crate::model::lemma_total_bytes_update;
use crate::model::records_map;
use crate::model::records_of;
use crate::model::strictly_ascending;
use crate::model::total_bytes;
use crate::order::Position;
use crate::order::compare_text;
use crate::order::lemma_text_precedes_total;
use crate::order::lemma_text_precedes_transitive;
use crate::order::text_precedes;

verus! {

/// An ordered table from keys to values that counts the bytes it holds.
pub struct MemoryStore {
    entries: Vec<(String, String)>,
    memory_usage: usize,
}

impl View for MemoryStore {
    type V = Map<Seq<char>, Seq<char>>;

    /// The value of each key of the table.
    open spec fn view(&self) -> Map<Seq<char>, Seq<char>> {
        records_map(self.records())
    }
}

impl MemoryStore {
    /// The records of the table, in the order of their keys.
    pub closed spec fn records(&self) -> Seq<(Seq<char>, Seq<char>)> {
        records_of(self.entries@)
    }

    /// The byte count that the table keeps.
    pub closed spec fn counted(&self) -> nat {
        self.memory_usage as nat
    }

    /// The keys are strictly ascending, and the byte count is the sum, over
    /// the records, of the bytes of the key and of the value.
    pub open spec fn is_valid(&self) -> bool {
        &&& strictly_ascending(self.records())
        &&& self.counted() == total_bytes(self.records())
    }

    /// What the byte count is once `key` has the value `value`: where the key
    /// had a value, the new value's bytes in place of the old one's; where it
    /// had none, the bytes of the key and of the value more.
    pub open spec fn counted_with(&self, key: Seq<char>, value: Seq<char>) -> int {
        if self@.contains_key(key) {
            self.counted() - encode_utf8(self@[key]).len() + encode_utf8(value).len()
        } else {
            (self.counted() + encode_utf8(key).len() + encode_utf8(value).len()) as int
        }
    }

    /// An empty table.
    pub fn new() -> (store: MemoryStore)
        ensures
            store.is_valid(),
            store.records() == Seq::<(Seq<char>, Seq<char>)>::empty(),
            store@ == Map::<Seq<char>, Seq<char>>::empty(),
            store.counted() == 0,
    {
        let store = MemoryStore { entries: Vec::new(), memory_usage: 0 };
        store
    }

    /// The bytes that the table holds: the sum, over its records, of the
    /// bytes of the key and of the value.
    pub fn usage(&self) -> (bytes: usize)
        requires
            self.is_valid(),
        ensures
            bytes == total_bytes(self.records()),
            bytes == self.counted(),
    {
        self.memory_usage
    }

    /// The number of keys.
    pub fn len(&self) -> (count: usize)
        ensures
            count == self.records().len(),
    {
        self.entries.len()
    }

    /// The records of the table in ascending order of their keys.
    pub fn iter(&self) -> (records: Vec<(String, String)>)
        requires
            self.is_valid(),
        ensures
            records_of(records@) == self.records(),
            strictly_ascending(records_of(records@)),
    {
        let mut records: Vec<(String, String)> = Vec::new();
        let mut i: usize = 0;
        while i < self.entries.len()
            invariant
                i <= self.entries@.len(),
                records@.len() == i,
                forall|j: int|
                    0 <= j < i ==> (#[trigger] records@[j]).0@ == self.entries@[j].0@
                        && records@[j].1@ == self.entries@[j].1@,
            decreases self.entries@.len() - i,
        {
            let entry = &self.entries[i];
            records.push((entry.0.clone(), entry.1.clone()));
            i += 1;
        }
        assert(records_of(records@) =~= self.records());
        records
    }

    /// Where `key` stands among the entries: its index and `true` where it is
    /// there, else the index at which it would be put and `false`.
    fn locate(&self, key: &str) -> (place: (usize, bool))
        requires
            self.is_valid(),
        ensures
            place.0 <= self.records().len(),
            place.1 ==> place.0 < self.records().len() && self.records()[place.0 as int].0 == key@,
            !place.1 ==> forall|i: int|
                0 <= i < place.0 ==> text_precedes(#[trigger] self.records()[i].0, key@),
            !place.1 ==> forall|i: int|
                place.0 <= i < self.records().len() ==> text_precedes(
                    key@,
                    #[trigger] self.records()[i].0,
                ),
    {
        let ghost records = self.records();
        let mut low: usize = 0;
        let mut high: usize = self.entries.len();
        while low < high
            invariant
                records == self.records(),
                strictly_ascending(records),
                low <= high <= records.len(),
                forall|i: int| 0 <= i < low ==> text_precedes(#[trigger] records[i].0, key@),
                forall|i: int|
                    high <= i < records.len() ==> text_precedes(key@, #[trigger] records[i].0),
            decreases high - low,
        {
            let mid: usize = low + (high - low) / 2;
            match compare_text(self.entries[mid].0.as_str(), key) {
                Position::Same => {
                    return (mid, true);
                },
                Position::Before => {
                    assert forall|i: int| 0 <= i < mid + 1 implies text_precedes(
                        #[trigger] records[i].0,
                        key@,
                    ) by {
                        if i < mid {
                            lemma_text_precedes_transitive(records[i].0, records[mid as int].0, key@);
                        }
                    }
                    low = mid + 1;
                },
                Position::After => {
                    assert forall|i: int| mid <= i < records.len() implies text_precedes(
                        key@,
                        #[trigger] records[i].0,
                    ) by {
                        if i > mid {
                            lemma_text_precedes_transitive(key@, records[mid as int].0, records[i].0);
                        }
                    }
                    high = mid;
                },
            }
        }
        (low, false)
    }
}

impl Storage for MemoryStore {
    open spec fn well_formed(&self) -> bool {
        self.is_valid()
    }

    open spec fn mapping(&self) -> Map<Seq<char>, Seq<char>> {
        self@
    }

    /// Gives `key` the value `value` and brings the byte count up to date,
    /// so that it is again the sum, over the records, of the bytes of the
    /// key and of the value.  The write is refused, and the table left as
    /// it was, only where the byte count would not fit in a machine word.
    fn set(&mut self, key: &str, value: &str) -> (result: SetResult)
        ensures
            final(self).counted() == total_bytes(final(self).records()),
            old(self).counted_with(key@, value@) == total_bytes(
                ascending_records(old(self)@.insert(key@, value@)),
            ),
            result is Ok <==> old(self).counted_with(key@, value@) <= usize::MAX,
            result is Ok ==> final(self).counted() == old(self).counted_with(key@, value@),
            result matches Err(error) ==> error == StoreError::Capacity && final(self).records()
                == old(self).records() && final(self).counted() == old(self).counted(),
    {
        let key_len = key.as_bytes().len();
        let value_len = value.as_bytes().len();
        let (at, found) = self.locate(key);
        let ghost records = self.records();
        proof {
            lemma_records_map_domain(records, key@);
            if found {
                lemma_records_map_at(records, at as int);
            } else if records_map(records).contains_key(key@) {
                let i = choose|i: int| 0 <= i < records.len() && #[trigger] records[i].0 == key@;
                lemma_text_precedes_total(records[i].0, key@);
            }
        }
        if found {
            let old_len = self.entries[at].1.as_str().as_bytes().len();
            proof {
                lemma_total_bytes_update(records, at as int, (key@, value@));
                lemma_records_map_update(records, at as int, value@);
                lemma_ascending_records(records.update(at as int, (key@, value@)));
            }
            let usage = if value_len >= old_len {
                let more = value_len - old_len;
                if usize::MAX - self.memory_usage < more {
                    return Err(StoreError::Capacity);
                }
                self.memory_usage + more
            } else {
                self.memory_usage - (old_len - value_len)
            };
            let previous = self.entries.remove(at);
            self.entries.insert(at, (previous.0, value.to_owned()));
            self.memory_usage = usage;
            assert(self.records() =~= records.update(at as int, (key@, value@)));
        } else {
            proof {
                let longer = records.insert(at as int, (key@, value@));
                lemma_total_bytes_insert(records, at as int, (key@, value@));
                lemma_records_map_insert(records, at as int, key@, value@);
                lemma_ascending_records(longer);
            }
            if usize::MAX - self.memory_usage < key_len || usize::MAX - self.memory_usage - key_len
                < value_len {
                return Err(StoreError::Capacity);
            }
            let usage = self.memory_usage + key_len + value_len;
            self.entries.insert(at, (key.to_owned(), value.to_owned()));
            self.memory_usage = usage;
            proof {
                assert(self.records() =~= records.insert(at as int, (key@, value@)));
            }
        }
        Ok(())
    }

    /// The value of `key`, or nothing where the table has no such key.  A
    /// lookup in the table always succeeds.
    fn get(&self, key: &str) -> (result: GetResult)
        ensures
            result is Ok,
    {
        let (at, found) = self.locate(key);
        let ghost records = self.records();
        proof {
            lemma_records_map_domain(records, key@);
            if found {
                lemma_records_map_at(records, at as int);
            } else if records_map(records).contains_key(key@) {
                let i = choose|i: int| 0 <= i < records.len() && #[trigger] records[i].0 == key@;
                lemma_text_precedes_total(records[i].0, key@);
            }
        }
        if found {
            let value = self.entries[at].1.clone();
            Ok(Some(value))
        } else {
            Ok(None)
        }
    }
}

} // verus!
