//! The order of keys: byte strings compared lexicographically.

use vstd::prelude::*;
use vstd::utf8::encode_utf8;
use vstd::utf8::encode_utf8_decode_utf8;

verus! {

/// Whether `a` comes before `b`, given that the two agree on their first
/// `from` bytes.
pub open spec fn precedes_from(a: Seq<u8>, b: Seq<u8>, from: int) -> bool
    decreases a.len() - from,
{
    if from < 0 || from >= b.len() {
        false
    } else if from >= a.len() {
        true
    } else if a[from] != b[from] {
        a[from] < b[from]
    } else {
        precedes_from(a, b, from + 1)
    }
}

/// Whether `a` comes strictly before `b` in lexicographic order: at the first
/// place where the two differ `a` has the smaller byte, or `a` is a proper
/// prefix of `b`.
pub open spec fn precedes(a: Seq<u8>, b: Seq<u8>) -> bool {
    precedes_from(a, b, 0)
}

/// Whether the text `a` comes strictly before the text `b`: the order of
/// their UTF-8 bytes.
pub open spec fn text_precedes(a: Seq<char>, b: Seq<char>) -> bool {
    precedes(encode_utf8(a), encode_utf8(b))
}

/// Whether `a` and `b` agree on their first `upto` bytes.
spec fn agree_upto(a: Seq<u8>, b: Seq<u8>, upto: int) -> bool {
    &&& upto <= a.len()
    &&& upto <= b.len()
    &&& forall|i: int| 0 <= i < upto ==> a[i] == b[i]
}

proof fn lemma_trichotomy_from(a: Seq<u8>, b: Seq<u8>, from: int)
    requires
        0 <= from,
        agree_upto(a, b, from),
    ensures
        precedes_from(a, b, from) || a == b || precedes_from(b, a, from),
        !(precedes_from(a, b, from) && precedes_from(b, a, from)),
        a == b ==> !precedes_from(a, b, from),
    decreases a.len() - from,
{
    if from < a.len() && from < b.len() && a[from] == b[from] {
        lemma_trichotomy_from(a, b, from + 1);
    }
}

proof fn lemma_transitive_from(a: Seq<u8>, b: Seq<u8>, c: Seq<u8>, from: int)
    requires
        0 <= from,
        precedes_from(a, b, from),
        precedes_from(b, c, from),
    ensures
        precedes_from(a, c, from),
    decreases a.len() - from,
{
    if from < a.len() && a[from] == b[from] && b[from] == c[from] {
        lemma_transitive_from(a, b, c, from + 1);
    }
}

/// Of two byte strings exactly one holds: the first comes before the second,
/// the two are equal, or the second comes before the first.
pub proof fn lemma_precedes_total(a: Seq<u8>, b: Seq<u8>)
    ensures
        precedes(a, b) || a == b || precedes(b, a),
        !(precedes(a, b) && precedes(b, a)),
        !precedes(a, a),
        a == b ==> !precedes(a, b),
{
    lemma_trichotomy_from(a, b, 0);
    lemma_trichotomy_from(a, a, 0);
}

/// What comes before something that comes before a third comes before the
/// third.
pub proof fn lemma_precedes_transitive(a: Seq<u8>, b: Seq<u8>, c: Seq<u8>)
    requires
        precedes(a, b),
        precedes(b, c),
    ensures
        precedes(a, c),
{
    lemma_transitive_from(a, b, c, 0);
}

/// Two texts with the same UTF-8 bytes are the same text.
pub proof fn lemma_text_bytes_injective(a: Seq<char>, b: Seq<char>)
    requires
        encode_utf8(a) == encode_utf8(b),
    ensures
        a == b,
{
    encode_utf8_decode_utf8(a);
    encode_utf8_decode_utf8(b);
}

/// Of two texts exactly one holds: the first comes before the second, the two
/// are equal, or the second comes before the first.
pub proof fn lemma_text_precedes_total(a: Seq<char>, b: Seq<char>)
    ensures
        text_precedes(a, b) || a == b || text_precedes(b, a),
        !(text_precedes(a, b) && text_precedes(b, a)),
        !text_precedes(a, a),
        a == b ==> !text_precedes(a, b),
{
    lemma_precedes_total(encode_utf8(a), encode_utf8(b));
    if encode_utf8(a) == encode_utf8(b) {
        lemma_text_bytes_injective(a, b);
    }
}

/// The order of texts is transitive.
pub proof fn lemma_text_precedes_transitive(a: Seq<char>, b: Seq<char>, c: Seq<char>)
    requires
        text_precedes(a, b),
        text_precedes(b, c),
    ensures
        text_precedes(a, c),
{
    lemma_precedes_transitive(encode_utf8(a), encode_utf8(b), encode_utf8(c));
}

/// Where `a` does not come after `b`, and `b` does not come after `c`, `a`
/// does not come after `c`.
pub proof fn lemma_text_not_after_chain(a: Seq<char>, b: Seq<char>, c: Seq<char>)
    requires
        !text_precedes(b, a),
        !text_precedes(c, b),
    ensures
        !text_precedes(c, a),
{
    lemma_text_precedes_total(a, b);
    if text_precedes(c, a) && a != b && b != c {
        lemma_text_precedes_transitive(c, a, b);
    }
}

/// How one key stands to another.
#[derive(Clone, Copy, Debug, PartialEq, Eq, Structural)]
pub enum Position {
    /// The first key comes before the second.
    Before,
    /// The two keys are equal.
    Same,
    /// The first key comes after the second.
    After,
}

/// The position of `a` relative to `b` in lexicographic order.
pub open spec fn position_of(a: Seq<u8>, b: Seq<u8>) -> Position {
    if precedes(a, b) {
        Position::Before
    } else if a == b {
        Position::Same
    } else {
        Position::After
    }
}

/// Compares two byte strings lexicographically.
pub fn compare_bytes(a: &[u8], b: &[u8]) -> (position: Position)
    ensures
        position == position_of(a@, b@),
        position == Position::After <==> precedes(b@, a@),
{
    let mut i: usize = 0;
    while i < a.len() && i < b.len()
        invariant
            agree_upto(a@, b@, i as int),
            precedes(a@, b@) == precedes_from(a@, b@, i as int),
            precedes(b@, a@) == precedes_from(b@, a@, i as int),
        decreases a.len() - i,
    {
        if a[i] < b[i] {
            return Position::Before;
        }
        if a[i] > b[i] {
            return Position::After;
        }
        i += 1;
    }
    proof {
        lemma_precedes_total(a@, b@);
    }
    if i < b.len() {
        Position::Before
    } else if i < a.len() {
        Position::After
    } else {
        Position::Same
    }
}

/// Compares two texts by their UTF-8 bytes, which is the order of `str`.
pub fn compare_text(a: &str, b: &str) -> (position: Position)
    ensures
        position == Position::Before <==> text_precedes(a@, b@),
        position == Position::Same <==> a@ == b@,
        position == Position::After <==> text_precedes(b@, a@),
{
    proof {
        lemma_text_precedes_total(a@, b@);
    }
    compare_bytes(a.as_bytes(), b.as_bytes())
}

/// Whether two texts are the same.
pub fn same_text(a: &str, b: &str) -> (same: bool)
    ensures
        same == (a@ == b@),
{
    match compare_text(a, b) {
        Position::Same => true,
        _ => false,
    }
}

} // verus!
