//! The mathematical model that the stores share: a sequence of records, each
//! a key and a value, read as a mapping in which a later record of a key
//! replaces an earlier one.

use vstd::prelude::*;
use vstd::utf8::encode_utf8;
use crate::order::lemma_text_precedes_total;
use crate::order::lemma_text_precedes_transitive;
use crate::order::text_precedes;

verus! {

/// The mapping that a sequence of records stands for: the records applied in
/// order, so that of two records with one key the later one counts.
pub open spec fn records_map(records: Seq<(Seq<char>, Seq<char>)>) -> Map<Seq<char>, Seq<char>>
    decreases records.len(),
{
    if records.len() == 0 {
        Map::empty()
    } else {
        records_map(records.drop_last()).insert(records.last().0, records.last().1)
    }
}

/// Whether `found` is what a lookup of `key` in `mapping` gives: the value of
/// the key, or nothing where the mapping has no such key.
pub open spec fn answers(
    found: Option<String>,
    mapping: Map<Seq<char>, Seq<char>>,
    key: Seq<char>,
) -> bool {
    match found {
        Some(value) => mapping.contains_key(key) && mapping[key] == value@,
        None => !mapping.contains_key(key),
    }
}

/// The records that a vector of pairs of strings holds.
pub open spec fn records_of(pairs: Seq<(String, String)>) -> Seq<(Seq<char>, Seq<char>)> {
    Seq::new(pairs.len(), |i: int| (pairs[i].0@, pairs[i].1@))
}

/// Whether the keys of `records` are strictly ascending, so that no key
/// occurs twice.
pub open spec fn strictly_ascending(records: Seq<(Seq<char>, Seq<char>)>) -> bool {
    forall|i: int, j: int|
        0 <= i < j < records.len() ==> text_precedes(#[trigger] records[i].0, #[trigger] records[j].0)
}

/// The mapping of records with one more record is the mapping of the records
/// with that key set to that value.
pub proof fn lemma_records_map_push(
    records: Seq<(Seq<char>, Seq<char>)>,
    key: Seq<char>,
    value: Seq<char>,
)
    ensures
        records_map(records.push((key, value))) == records_map(records).insert(key, value),
{
    assert(records.push((key, value)).drop_last() =~= records);
}

/// A key is in the mapping of records exactly if some record has it.
pub proof fn lemma_records_map_domain(records: Seq<(Seq<char>, Seq<char>)>, key: Seq<char>)
    ensures
        records_map(records).contains_key(key) <==> exists|i: int|
            0 <= i < records.len() && #[trigger] records[i].0 == key,
    decreases records.len(),
{
    if records.len() > 0 {
        let front = records.drop_last();
        lemma_records_map_domain(front, key);
        if exists|i: int| 0 <= i < records.len() && #[trigger] records[i].0 == key {
            let i = choose|i: int| 0 <= i < records.len() && #[trigger] records[i].0 == key;
            if i < records.len() - 1 {
                assert(front[i].0 == key);
            }
        }
    }
}

/// Where no key occurs twice, the mapping gives each record's key that
/// record's value.
pub proof fn lemma_records_map_at(records: Seq<(Seq<char>, Seq<char>)>, at: int)
    requires
        strictly_ascending(records),
        0 <= at < records.len(),
    ensures
        records_map(records).contains_key(records[at].0),
        records_map(records)[records[at].0] == records[at].1,
    decreases records.len(),
{
    let front = records.drop_last();
    if at < records.len() - 1 {
        lemma_records_map_at(front, at);
        lemma_text_precedes_total(records[at].0, records.last().0);
    }
}

/// The bytes that records take: for each record the bytes of its key and of
/// its value, as UTF-8.
pub open spec fn total_bytes(records: Seq<(Seq<char>, Seq<char>)>) -> nat
    decreases records.len(),
{
    if records.len() == 0 {
        0
    } else {
        total_bytes(records.drop_last()) + encode_utf8(records.last().0).len() + encode_utf8(
            records.last().1,
        ).len()
    }
}

/// The bytes that one record takes.
pub open spec fn record_bytes(record: (Seq<char>, Seq<char>)) -> nat {
    encode_utf8(record.0).len() + encode_utf8(record.1).len()
}

/// Records with one more record at any place take that record's bytes more.
pub proof fn lemma_total_bytes_insert(
    records: Seq<(Seq<char>, Seq<char>)>,
    at: int,
    record: (Seq<char>, Seq<char>),
)
    requires
        0 <= at <= records.len(),
    ensures
        total_bytes(records.insert(at, record)) == total_bytes(records) + record_bytes(record),
    decreases records.len(),
{
    let longer = records.insert(at, record);
    if at == records.len() {
        assert(longer.drop_last() =~= records);
    } else {
        assert(longer.drop_last() =~= records.drop_last().insert(at, record));
        lemma_total_bytes_insert(records.drop_last(), at, record);
    }
}

/// Records with one record replaced take the new record's bytes in place of
/// the old one's.
pub proof fn lemma_total_bytes_update(
    records: Seq<(Seq<char>, Seq<char>)>,
    at: int,
    record: (Seq<char>, Seq<char>),
)
    requires
        0 <= at < records.len(),
    ensures
        total_bytes(records.update(at, record)) + record_bytes(records[at]) == total_bytes(records)
            + record_bytes(record),
    decreases records.len(),
{
    let changed = records.update(at, record);
    if at == records.len() - 1 {
        assert(changed.drop_last() =~= records.drop_last());
    } else {
        assert(changed.drop_last() =~= records.drop_last().update(at, record));
        lemma_total_bytes_update(records.drop_last(), at, record);
    }
}

/// A new key, put at its place among ascending records, is one more key of
/// their mapping.
pub proof fn lemma_records_map_insert(
    records: Seq<(Seq<char>, Seq<char>)>,
    at: int,
    key: Seq<char>,
    value: Seq<char>,
)
    requires
        0 <= at <= records.len(),
        strictly_ascending(records),
        strictly_ascending(records.insert(at, (key, value))),
    ensures
        records_map(records.insert(at, (key, value))) == records_map(records).insert(key, value),
{
    let longer = records.insert(at, (key, value));
    let wanted = records_map(records).insert(key, value);
    assert forall|k: Seq<char>| records_map(longer).contains_key(k) <==> wanted.contains_key(
        k,
    ) by {
        lemma_records_map_domain(longer, k);
        lemma_records_map_domain(records, k);
        if k == key {
            assert(longer[at].0 == k);
        }
        if records_map(records).contains_key(k) {
            let i = choose|i: int| 0 <= i < records.len() && #[trigger] records[i].0 == k;
            if i < at {
                assert(longer[i].0 == k);
            } else {
                assert(longer[i + 1].0 == k);
            }
        }
    }
    assert forall|k: Seq<char>| records_map(longer).contains_key(k) implies records_map(
        longer,
    )[k] == wanted[k] by {
        lemma_records_map_domain(longer, k);
        let i = choose|i: int| 0 <= i < longer.len() && #[trigger] longer[i].0 == k;
        lemma_records_map_at(longer, i);
        if i < at {
            lemma_records_map_at(records, i);
            lemma_text_precedes_total(longer[i].0, longer[at].0);
        } else if i > at {
            lemma_records_map_at(records, i - 1);
            lemma_text_precedes_total(longer[at].0, longer[i].0);
        }
    }
}

/// A new value for the key of one of ascending records is a new value for
/// that key in their mapping.
pub proof fn lemma_records_map_update(
    records: Seq<(Seq<char>, Seq<char>)>,
    at: int,
    value: Seq<char>,
)
    requires
        0 <= at < records.len(),
        strictly_ascending(records),
    ensures
        strictly_ascending(records.update(at, (records[at].0, value))),
        records_map(records.update(at, (records[at].0, value))) == records_map(records).insert(
            records[at].0,
            value,
        ),
{
    let key = records[at].0;
    let changed = records.update(at, (key, value));
    let wanted = records_map(records).insert(key, value);
    assert forall|k: Seq<char>| records_map(changed).contains_key(k) <==> wanted.contains_key(
        k,
    ) by {
        lemma_records_map_domain(changed, k);
        lemma_records_map_domain(records, k);
        if records_map(records).contains_key(k) {
            let i = choose|i: int| 0 <= i < records.len() && #[trigger] records[i].0 == k;
            assert(changed[i].0 == k);
        }
    }
    assert forall|k: Seq<char>| records_map(changed).contains_key(k) implies records_map(
        changed,
    )[k] == wanted[k] by {
        lemma_records_map_domain(changed, k);
        let i = choose|i: int| 0 <= i < changed.len() && #[trigger] changed[i].0 == k;
        lemma_records_map_at(changed, i);
        if i != at {
            lemma_records_map_at(records, i);
            if i < at {
                lemma_text_precedes_total(records[i].0, records[at].0);
            } else {
                lemma_text_precedes_total(records[at].0, records[i].0);
            }
        }
    }
}

/// Records with one more record behind them ascend exactly if they
/// ascended and the key of their last record comes before the new key.
pub proof fn lemma_ascending_push(
    records: Seq<(Seq<char>, Seq<char>)>,
    record: (Seq<char>, Seq<char>),
)
    ensures
        strictly_ascending(records.push(record)) <==> strictly_ascending(records) && (records.len()
            == 0 || text_precedes(records.last().0, record.0)),
{
    let longer = records.push(record);
    if strictly_ascending(longer) {
        assert forall|i: int, j: int| 0 <= i < j < records.len() implies text_precedes(
            #[trigger] records[i].0,
            #[trigger] records[j].0,
        ) by {
            assert(longer[i] == records[i] && longer[j] == records[j]);
        }
        if records.len() > 0 {
            assert(longer[records.len() - 1] == records.last());
            assert(longer[records.len() as int] == record);
        }
    }
    if strictly_ascending(records) && (records.len() == 0 || text_precedes(
        records.last().0,
        record.0,
    )) {
        assert forall|i: int, j: int| 0 <= i < j < longer.len() implies text_precedes(
            #[trigger] longer[i].0,
            #[trigger] longer[j].0,
        ) by {
            if j == records.len() && i < records.len() - 1 {
                lemma_text_precedes_transitive(records[i].0, records.last().0, record.0);
            }
        }
    }
}

/// The mapping of mappings laid one over the other: each key has the value
/// that the last of the mappings with that key gives it.
pub open spec fn layers(maps: Seq<Map<Seq<char>, Seq<char>>>) -> Map<Seq<char>, Seq<char>>
    decreases maps.len(),
{
    if maps.len() == 0 {
        Map::empty()
    } else {
        layers(maps.drop_last()).union_prefer_right(maps.last())
    }
}

/// A key of a mapping that no later mapping has gets its value from that
/// mapping when the mappings are laid one over the other.
pub proof fn lemma_layers_top(maps: Seq<Map<Seq<char>, Seq<char>>>, key: Seq<char>, top: int)
    requires
        0 <= top < maps.len(),
        maps[top].contains_key(key),
        forall|later: int| top < later < maps.len() ==> !(#[trigger] maps[later]).contains_key(key),
    ensures
        layers(maps).contains_key(key),
        layers(maps)[key] == maps[top][key],
    decreases maps.len(),
{
    if top < maps.len() - 1 {
        let front = maps.drop_last();
        lemma_layers_top(front, key, top);
    }
}

/// A key of mappings laid one over the other is a key of one of them.
pub proof fn lemma_layers_domain(maps: Seq<Map<Seq<char>, Seq<char>>>, key: Seq<char>)
    ensures
        layers(maps).contains_key(key) <==> exists|at: int|
            0 <= at < maps.len() && (#[trigger] maps[at]).contains_key(key),
    decreases maps.len(),
{
    if maps.len() > 0 {
        let front = maps.drop_last();
        lemma_layers_domain(front, key);
        if exists|at: int| 0 <= at < maps.len() && (#[trigger] maps[at]).contains_key(key) {
            let at = choose|at: int| 0 <= at < maps.len() && (#[trigger] maps[at]).contains_key(key);
            if at < maps.len() - 1 {
                assert(front[at].contains_key(key));
            }
        }
    }
}

/// One more mapping laid over the others.
pub proof fn lemma_layers_push(
    maps: Seq<Map<Seq<char>, Seq<char>>>,
    top: Map<Seq<char>, Seq<char>>,
)
    ensures
        layers(maps.push(top)) == layers(maps).union_prefer_right(top),
{
    assert(maps.push(top).drop_last() =~= maps);
}

/// The records of a mapping in ascending order of their keys.
pub open spec fn ascending_records(mapping: Map<Seq<char>, Seq<char>>) -> Seq<
    (Seq<char>, Seq<char>),
> {
    choose|records: Seq<(Seq<char>, Seq<char>)>|
        strictly_ascending(records) && records_map(records) == mapping
}

proof fn lemma_ascending_drop_last(records: Seq<(Seq<char>, Seq<char>)>)
    requires
        strictly_ascending(records),
        records.len() > 0,
    ensures
        strictly_ascending(records.drop_last()),
        records_map(records.drop_last()) == records_map(records).remove(records.last().0),
{
    let front = records.drop_last();
    lemma_records_map_domain(front, records.last().0);
    if records_map(front).contains_key(records.last().0) {
        let i = choose|i: int| 0 <= i < front.len() && #[trigger] front[i].0 == records.last().0;
        lemma_text_precedes_total(records[i].0, records.last().0);
    }
}

/// Records in ascending order of their keys are the only ones with their
/// mapping.
pub proof fn lemma_ascending_unique(
    first: Seq<(Seq<char>, Seq<char>)>,
    second: Seq<(Seq<char>, Seq<char>)>,
)
    requires
        strictly_ascending(first),
        strictly_ascending(second),
        records_map(first) == records_map(second),
    ensures
        first == second,
    decreases first.len(),
{
    if first.len() == 0 {
        if second.len() > 0 {
            lemma_records_map_at(second, 0);
        }
    } else if second.len() == 0 {
        lemma_records_map_at(first, 0);
    } else {
        let last_first = first.len() - 1;
        lemma_records_map_at(first, last_first);
        lemma_records_map_domain(first, second.last().0);
        lemma_records_map_domain(second, first.last().0);
        lemma_text_precedes_total(first.last().0, second.last().0);
        lemma_ascending_drop_last(first);
        lemma_ascending_drop_last(second);
        lemma_ascending_unique(first.drop_last(), second.drop_last());
        assert(first =~= first.drop_last().push(first.last()));
    }
}

/// Records in ascending order of their keys are the ascending records of
/// their mapping.
pub proof fn lemma_ascending_records(records: Seq<(Seq<char>, Seq<char>)>)
    requires
        strictly_ascending(records),
    ensures
        ascending_records(records_map(records)) == records,
{
    let chosen = ascending_records(records_map(records));
    lemma_ascending_unique(records, chosen);
}

} // verus!
