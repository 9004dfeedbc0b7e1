//! The write-ahead log: one line of escaped text for every write.
//!
//! A record is the escaped key, a tab, the escaped value and a line feed.
//! Escaping writes a backslash as two backslashes, a line feed as a
//! backslash and `n`, and a tab as a backslash and `t`, so that a record
//! holds exactly one tab and ends at its only line feed.

use vstd::prelude::*;
use vstd::std_specs::iter::IteratorSpec;
use vstd::string::StringExecFns;
use crate::GetResult;
use crate::SetResult;
use crate::Storage;
use crate::StoreError;
use crate::model::answers;
use crate::model::lemma_records_map_push;
use crate::model::records_map;
use crate::model::records_of;
use crate::order::same_text;

verus! {

/// What one character is written as in the log.
pub open spec fn escaped_char(c: char) -> Seq<char> {
    if c == '\\' {
        seq!['\\', '\\']
    } else if c == '\n' {
        seq!['\\', 'n']
    } else if c == '\t' {
        seq!['\\', 't']
    } else {
        seq![c]
    }
}

/// What a text is written as in the log: each of its characters escaped.
pub open spec fn escaped(text: Seq<char>) -> Seq<char>
    decreases text.len(),
{
    if text.len() == 0 {
        Seq::empty()
    } else {
        escaped_char(text[0]) + escaped(text.drop_first())
    }
}

/// What the character behind a backslash stands for: `n` for a line feed, `t`
/// for a tab, a backslash for a backslash.  Any other character is dropped
/// and two backslashes take its place.
pub open spec fn unescaped_pair(c: char) -> Seq<char> {
    if c == 'n' {
        seq!['\n']
    } else if c == 't' {
        seq!['\t']
    } else if c == '\\' {
        seq!['\\']
    } else {
        seq!['\\', '\\']
    }
}

/// The text that a logged text stands for.  A backslash and the character
/// behind it are read together; a backslash at the very end stands for two
/// backslashes; every other character stands for itself.
pub open spec fn unescaped(text: Seq<char>) -> Seq<char>
    decreases text.len(),
{
    if text.len() == 0 {
        Seq::empty()
    } else if text[0] != '\\' {
        seq![text[0]] + unescaped(text.drop_first())
    } else if text.len() == 1 {
        seq!['\\', '\\']
    } else {
        unescaped_pair(text[1]) + unescaped(text.subrange(2, text.len() as int))
    }
}

/// Unescaping what escaping wrote gives the text back, whatever the text
/// holds: backslashes, line feeds and tabs included.
pub proof fn lemma_unescaped_escaped(text: Seq<char>)
    ensures
        unescaped(escaped(text)) == text,
    decreases text.len(),
{
    if text.len() > 0 {
        let c = text[0];
        let rest = text.drop_first();
        lemma_unescaped_escaped(rest);
        let written = escaped(text);
        if c == '\\' || c == '\n' || c == '\t' {
            assert(written.subrange(2, written.len() as int) =~= escaped(rest));
        } else {
            assert(written.drop_first() =~= escaped(rest));
        }
    }
}

/// Neither a line feed nor a tab stands in an escaped text.
pub proof fn lemma_escaped_is_one_field(text: Seq<char>)
    ensures
        forall|i: int|
            0 <= i < escaped(text).len() ==> escaped(text)[i] != '\n' && escaped(text)[i] != '\t',
    decreases text.len(),
{
    if text.len() > 0 {
        lemma_escaped_is_one_field(text.drop_first());
        assert(escaped(text) == escaped_char(text[0]) + escaped(text.drop_first()));
    }
}

/// Escapes a text for the log: a backslash becomes two backslashes, a line
/// feed a backslash and `n`, a tab a backslash and `t`.
pub fn serialize(input: &str) -> (output: String)
    ensures
        output@ == escaped(input@),
{
    let mut output = String::new();
    let mut chars = input.chars();
    loop
        invariant
            chars.obeys_prophetic_iter_laws(),
            chars.decrease() is Some,
            output@ + escaped(chars.remaining()) == escaped(input@),
        decreases chars.decrease()->0,
    {
        match chars.next() {
            None => {
                return output;
            },
            Some(ch) => {
                if ch == '\\' {
                    output.push('\\');
                    output.push('\\');
                } else if ch == '\n' {
                    output.push('\\');
                    output.push('n');
                } else if ch == '\t' {
                    output.push('\\');
                    output.push('t');
                } else {
                    output.push(ch);
                }
            },
        }
    }
}

/// Reads an escaped text back.  A backslash and the character behind it are
/// read together: `n` gives a line feed, `t` a tab, a backslash a backslash;
/// any other character behind a backslash is dropped and two backslashes are
/// written, as for a backslash at the very end.
pub fn deserialize(input: &str) -> (output: String)
    ensures
        output@ == unescaped(input@),
{
    let mut output = String::new();
    let mut chars = input.chars();
    loop
        invariant
            chars.obeys_prophetic_iter_laws(),
            chars.decrease() is Some,
            output@ + unescaped(chars.remaining()) == unescaped(input@),
        decreases chars.decrease()->0,
    {
        let ghost before = chars.remaining();
        match chars.next() {
            None => {
                return output;
            },
            Some(ch) => {
                if ch == '\\' {
                    match chars.next() {
                        Some('n') => {
                            output.push('\n');
                        },
                        Some('t') => {
                            output.push('\t');
                        },
                        Some('\\') => {
                            output.push('\\');
                        },
                        Some(_) => {
                            output.push('\\');
                            output.push('\\');
                        },
                        None => {
                            output.push('\\');
                            output.push('\\');
                            return output;
                        },
                    }
                    assert(chars.remaining() =~= before.subrange(2, before.len() as int));
                } else {
                    output.push(ch);
                }
            },
        }
    }
}

/// The line that records one write: the escaped key, a tab, the escaped
/// value and a line feed.
pub open spec fn record_line(key: Seq<char>, value: Seq<char>) -> Seq<char> {
    escaped(key) + seq!['\t'] + escaped(value) + seq!['\n']
}

/// Reads the rest of a log, `remaining`, in the middle of a line: `field`
/// holds the characters of the field that is being read, and `key` the
/// line's first field once its tab has been passed.
///
/// A line feed ends a record, which must have had its tab; a tab ends the
/// key, and a line has only one; the log must end where a line has ended.
/// Anything else is malformed, and the result is `None`.
pub open spec fn scan(remaining: Seq<char>, key: Option<Seq<char>>, field: Seq<char>) -> Option<
    Seq<(Seq<char>, Seq<char>)>,
>
    decreases remaining.len(),
{
    if remaining.len() == 0 {
        if key is None && field.len() == 0 {
            Some(Seq::empty())
        } else {
            None
        }
    } else if remaining[0] == '\n' {
        match (key, scan(remaining.drop_first(), None, Seq::empty())) {
            (Some(first), Some(tail)) => Some(seq![(unescaped(first), unescaped(field))] + tail),
            _ => None,
        }
    } else if remaining[0] == '\t' {
        match key {
            Some(_) => None,
            None => scan(remaining.drop_first(), Some(field), Seq::empty()),
        }
    } else {
        scan(remaining.drop_first(), key, field.push(remaining[0]))
    }
}

/// The records that the text of a log holds, in the order in which they
/// were written, or `None` where the text is not a sequence of well-formed
/// lines, each with exactly one tab and ended by a line feed.
pub open spec fn parse_log(text: Seq<char>) -> Option<Seq<(Seq<char>, Seq<char>)>> {
    scan(text, None, Seq::empty())
}

proof fn lemma_scan_field(
    piece: Seq<char>,
    rest: Seq<char>,
    key: Option<Seq<char>>,
    field: Seq<char>,
)
    requires
        forall|i: int| 0 <= i < piece.len() ==> piece[i] != '\n' && piece[i] != '\t',
    ensures
        scan(piece + rest, key, field) == scan(rest, key, field + piece),
    decreases piece.len(),
{
    if piece.len() > 0 {
        let all = piece + rest;
        assert(all.drop_first() =~= piece.drop_first() + rest);
        lemma_scan_field(piece.drop_first(), rest, key, field.push(piece[0]));
        assert(field.push(piece[0]) + piece.drop_first() =~= field + piece);
    }
}

/// A log that starts with the line of a record holds that record, and then
/// what the rest of the log holds.
pub proof fn lemma_scan_record_line(key: Seq<char>, value: Seq<char>, rest: Seq<char>)
    ensures
        parse_log(record_line(key, value) + rest) == match parse_log(rest) {
            Some(tail) => Some(seq![(key, value)] + tail),
            None => None,
        },
{
    let after_key = seq!['\t'] + escaped(value) + seq!['\n'] + rest;
    let after_tab = escaped(value) + (seq!['\n'] + rest);
    let after_value = seq!['\n'] + rest;
    lemma_escaped_is_one_field(key);
    lemma_escaped_is_one_field(value);
    lemma_unescaped_escaped(key);
    lemma_unescaped_escaped(value);
    assert(record_line(key, value) + rest =~= escaped(key) + after_key);
    lemma_scan_field(escaped(key), after_key, None, Seq::empty());
    assert(after_key.drop_first() =~= after_tab);
    lemma_scan_field(escaped(value), after_value, Some(escaped(key)), Seq::empty());
    assert(after_value.drop_first() =~= rest);
}

proof fn lemma_scan_append(
    remaining: Seq<char>,
    first: Option<Seq<char>>,
    field: Seq<char>,
    key: Seq<char>,
    value: Seq<char>,
)
    requires
        scan(remaining, first, field) is Some,
    ensures
        scan(remaining + record_line(key, value), first, field) == Some(
            scan(remaining, first, field)->0.push((key, value)),
        ),
    decreases remaining.len(),
{
    let line = record_line(key, value);
    if remaining.len() == 0 {
        lemma_scan_record_line(key, value, Seq::empty());
        assert(first is None && field =~= Seq::<char>::empty());
    } else {
        let all = remaining + line;
        assert(all.drop_first() =~= remaining.drop_first() + line);
        if remaining[0] == '\n' {
            lemma_scan_append(remaining.drop_first(), None, Seq::empty(), key, value);
        } else if remaining[0] == '\t' {
            lemma_scan_append(remaining.drop_first(), Some(field), Seq::empty(), key, value);
        } else {
            lemma_scan_append(remaining.drop_first(), first, field.push(remaining[0]), key, value);
        }
    }
}

/// A well-formed log with the line of one more record behind it holds its
/// records and then that record.
pub proof fn lemma_parse_log_append(text: Seq<char>, key: Seq<char>, value: Seq<char>)
    requires
        parse_log(text) is Some,
    ensures
        parse_log(text + record_line(key, value)) == Some(parse_log(text)->0.push((key, value))),
{
    lemma_scan_append(text, None, Seq::empty(), key, value);
}

/// The text of an optional string.
pub open spec fn text_of(field: Option<String>) -> Option<Seq<char>> {
    match field {
        Some(text) => Some(text@),
        None => None,
    }
}

/// Reads the text of a log: its records in the order in which they were
/// written.  A text that is not a sequence of well-formed lines, each with
/// exactly one tab and ended by a line feed, is reported corrupt.
pub fn replay(text: &str) -> (result: Result<Vec<(String, String)>, StoreError>)
    ensures
        match parse_log(text@) {
            Some(records) => result matches Ok(pairs) && records_of(pairs@) == records,
            None => result == Err::<Vec<(String, String)>, StoreError>(StoreError::Corruption),
        },
{
    let mut pairs: Vec<(String, String)> = Vec::new();
    let mut key: Option<String> = None;
    let mut field = String::new();
    let mut chars = text.chars();
    loop
        invariant
            chars.obeys_prophetic_iter_laws(),
            chars.decrease() is Some,
            match scan(chars.remaining(), text_of(key), field@) {
                Some(tail) => parse_log(text@) == Some(records_of(pairs@) + tail),
                None => parse_log(text@) is None,
            },
        decreases chars.decrease()->0,
    {
        match chars.next() {
            None => {
                if key.is_none() && field.as_str().is_empty() {
                    return Ok(pairs);
                }
                return Err(StoreError::Corruption);
            },
            Some(ch) => {
                if ch == '\n' {
                    match key {
                        None => {
                            return Err(StoreError::Corruption);
                        },
                        Some(first) => {
                            let record = (deserialize(first.as_str()), deserialize(field.as_str()));
                            pairs.push(record);
                            key = None;
                            field = String::new();
                        },
                    }
                } else if ch == '\t' {
                    if key.is_some() {
                        return Err(StoreError::Corruption);
                    }
                    key = Some(field);
                    field = String::new();
                } else {
                    field.push(ch);
                }
            },
        }
    }
}

/// The write-ahead log, held as the text of its file.
pub struct LogStore {
    text: String,
}

impl View for LogStore {
    type V = Seq<char>;

    /// The text of the log.
    closed spec fn view(&self) -> Seq<char> {
        self.text@
    }
}

impl LogStore {
    /// The records of the log, in the order in which they were written.
    pub open spec fn records(&self) -> Seq<(Seq<char>, Seq<char>)> {
        parse_log(self@)->0
    }

    /// The text of the log is a sequence of well-formed lines.
    pub open spec fn is_valid(&self) -> bool {
        parse_log(self@) is Some
    }

    /// Takes up the log whose file holds `contents`.  A text that is not a
    /// sequence of well-formed lines is reported corrupt.
    pub fn init(contents: String) -> (result: Result<LogStore, StoreError>)
        ensures
            match parse_log(contents@) {
                Some(records) => result matches Ok(log) && log@ == contents@ && log.is_valid(),
                None => result == Err::<LogStore, StoreError>(StoreError::Corruption),
            },
    {
        match replay(contents.as_str()) {
            Ok(_) => Ok(LogStore { text: contents }),
            Err(error) => Err(error),
        }
    }

    /// The records of the log, in the order in which they were written.
    pub fn iter(&self) -> (result: Result<Vec<(String, String)>, StoreError>)
        requires
            self.is_valid(),
        ensures
            result matches Ok(pairs) && records_of(pairs@) == self.records(),
    {
        replay(self.text.as_str())
    }

    /// The text of the log, as its file holds it.
    pub fn text(&self) -> (text: &str)
        ensures
            text@ == self@,
    {
        self.text.as_str()
    }

    /// Empties the log, once a segment holds all that it recorded.
    pub fn flush(&mut self)
        ensures
            final(self)@ == Seq::<char>::empty(),
            final(self).is_valid(),
            final(self).records() == Seq::<(Seq<char>, Seq<char>)>::empty(),
    {
        self.text = String::new();
    }
}

/// The line that records the write of `value` under `key`.
pub fn record(key: &str, value: &str) -> (entry: String)
    ensures
        entry@ == record_line(key@, value@),
{
    let mut entry = String::new();
    entry.append(serialize(key).as_str());
    entry.append("\t");
    entry.append(serialize(value).as_str());
    entry.append("\n");
    proof {
        reveal_strlit("\t");
        reveal_strlit("\n");
    }
    entry
}

impl Storage for LogStore {
    open spec fn well_formed(&self) -> bool {
        self.is_valid()
    }

    open spec fn mapping(&self) -> Map<Seq<char>, Seq<char>> {
        records_map(self.records())
    }

    /// Appends the line of the write to the log.  This always succeeds.
    fn set(&mut self, key: &str, value: &str) -> (result: SetResult)
        ensures
            result is Ok,
            final(self)@ == old(self)@ + record_line(key@, value@),
            final(self).records() == old(self).records().push((key@, value@)),
    {
        let entry = record(key, value);
        proof {
            lemma_parse_log_append(self@, key@, value@);
            lemma_records_map_push(self.records(), key@, value@);
        }
        self.text.append(entry.as_str());
        Ok(())
    }

    /// The value that the last record of `key` gave it, or nothing where the
    /// log has no record of the key.  This always succeeds.
    fn get(&self, key: &str) -> (result: GetResult)
        ensures
            result is Ok,
    {
        let entries = match self.iter() {
            Ok(entries) => entries,
            Err(error) => {
                return Err(error);
            },
        };
        let mut latest: Option<String> = None;
        let mut i: usize = 0;
        while i < entries.len()
            invariant
                i <= entries@.len(),
                answers(latest, records_map(records_of(entries@).subrange(0, i as int)), key@),
            decreases entries@.len() - i,
        {
            let ghost before = records_of(entries@).subrange(0, i as int);
            let ghost now = records_of(entries@).subrange(0, i + 1);
            proof {
                assert(now.drop_last() =~= before);
            }
            if same_text(entries[i].0.as_str(), key) {
                latest = Some(entries[i].1.clone());
            }
            i += 1;
        }
        assert(records_of(entries@).subrange(0, i as int) =~= records_of(entries@));
        Ok(latest)
    }
}

} // verus!
