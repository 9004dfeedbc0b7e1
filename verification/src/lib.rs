//! An embedded, ordered key-value store in the log-structured merge style.
//!
//! The engine is written without input or output of its own: a write-ahead
//! log is held as its text, a segment as the bytes of its file.  A program
//! around the engine copies those images to and from a disk.

use vstd::prelude::*;
use crate::model::answers;

pub mod codec;
pub mod database;
pub mod format;
pub mod log_store;
pub mod memory_store;
pub mod merge;
pub mod model;
pub mod order;
pub mod segment_store;
pub mod text;

verus! {

/// Why an operation of the store did not succeed.
#[derive(Clone, Copy, Debug, PartialEq, Eq, Structural)]
pub enum StoreError {
    /// Stored data is not in the expected format: a frame is cut short, a
    /// length field is implausibly large, text is not UTF-8, keys are out of
    /// order, or a log line is malformed.
    Corruption,
    /// A byte string is longer than a single frame may be.
    Oversized,
    /// A byte count does not fit in a machine word.
    Capacity,
}

impl StoreError {
    /// What the error says of itself.
    pub open spec fn description(self) -> Seq<char> {
        match self {
            StoreError::Corruption => "stored data is corrupt"@,
            StoreError::Oversized => "a byte string is too long for a frame"@,
            StoreError::Capacity => "a byte count does not fit in a machine word"@,
        }
    }

    /// A sentence that says what went wrong.
    pub fn message(&self) -> (text: String)
        ensures
            text@ == self.description(),
    {
        match self {
            StoreError::Corruption => "stored data is corrupt".to_owned(),
            StoreError::Oversized => "a byte string is too long for a frame".to_owned(),
            StoreError::Capacity => "a byte count does not fit in a machine word".to_owned(),
        }
    }
}

/// What a write returns.
pub type SetResult = Result<(), StoreError>;

/// What a lookup returns: the value of the key, or nothing where the key has
/// none.
pub type GetResult = Result<Option<String>, StoreError>;

/// A store of keys and their values.
pub trait Storage {
    /// The invariant of the store, which every operation keeps.
    spec fn well_formed(&self) -> bool;

    /// The value that the store holds for each key that it has.
    spec fn mapping(&self) -> Map<Seq<char>, Seq<char>>;

    /// Gives `key` the value `value`, in place of the value that it had.
    fn set(&mut self, key: &str, value: &str) -> (result: SetResult)
        requires
            old(self).well_formed(),
        ensures
            final(self).well_formed(),
            result is Ok ==> final(self).mapping() == old(self).mapping().insert(key@, value@),
    ;

    /// The value of `key`, or nothing where the store has no such key.
    fn get(&self, key: &str) -> (result: GetResult)
        requires
            self.well_formed(),
        ensures
            result matches Ok(found) ==> answers(found, self.mapping(), key@),
    ;
}

} // verus!
