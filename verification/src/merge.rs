//! The merge of several ascending lists of records into one, in which a
//! key that several lists hold keeps the value of the last of those lists.

use vstd::prelude::*;
use crate::model::layers;
use crate::model::lemma_layers_domain;
use crate::model::lemma_layers_top;
use crate::model::lemma_records_map_at;
use crate::model::lemma_records_map_domain;
use crate::model::records_map;
use crate::model::records_of;
use crate::model::strictly_ascending;
use crate::order::Position;
use crate::order::compare_text;
use crate::order::lemma_text_precedes_total;
use crate::order::lemma_text_precedes_transitive;
use crate::order::same_text;
use crate::order::text_precedes;

verus! {

/// The records of each of the lists.
pub open spec fn sources_of(lists: Seq<Vec<(String, String)>>) -> Seq<Seq<(Seq<char>, Seq<char>)>> {
    Seq::new(lists.len(), |j: int| records_of(lists[j]@))
}

/// The mapping of each of the lists of records.
pub open spec fn source_maps(sources: Seq<Seq<(Seq<char>, Seq<char>)>>) -> Seq<
    Map<Seq<char>, Seq<char>>,
> {
    Seq::new(sources.len(), |j: int| records_map(sources[j]))
}

/// Whether each of the lists is in strictly ascending order of its keys.
pub open spec fn sources_ascend(sources: Seq<Seq<(Seq<char>, Seq<char>)>>) -> bool {
    forall|j: int| 0 <= j < sources.len() ==> strictly_ascending(#[trigger] sources[j])
}

/// Whether `record` was taken from the list `j` at `a`, a place that has
/// been passed, while no later list holds its key at a place that has been
/// passed.
spec fn taken_from(
    sources: Seq<Seq<(Seq<char>, Seq<char>)>>,
    positions: Seq<usize>,
    record: (Seq<char>, Seq<char>),
    j: int,
    a: int,
) -> bool {
    &&& 0 <= j < sources.len()
    &&& 0 <= a < positions[j]
    &&& sources[j][a] == record
    &&& forall|j2: int, a2: int|
        j < j2 < sources.len() && 0 <= a2 < positions[j2] ==> (#[trigger] sources[j2][a2]).0
            != record.0
}

/// Whether each position is within its list.
spec fn within_sources(
    sources: Seq<Seq<(Seq<char>, Seq<char>)>>,
    positions: Seq<usize>,
) -> bool {
    &&& positions.len() == sources.len()
    &&& forall|j: int| 0 <= j < sources.len() ==> #[trigger] positions[j] <= sources[j].len()
}

/// Whether every key that has been passed is in `merged`.
spec fn passed_are_written(
    sources: Seq<Seq<(Seq<char>, Seq<char>)>>,
    positions: Seq<usize>,
    merged: Seq<(Seq<char>, Seq<char>)>,
) -> bool {
    forall|j: int, a: int|
        0 <= j < sources.len() && 0 <= a < positions[j] ==> exists|p: int|
            0 <= p < merged.len() && (#[trigger] merged[p]).0 == (#[trigger] sources[j][a]).0
}

/// Whether every record that has not been passed has a key behind `last`.
spec fn unread_are_behind(
    sources: Seq<Seq<(Seq<char>, Seq<char>)>>,
    positions: Seq<usize>,
    last: Seq<char>,
) -> bool {
    forall|j: int, a: int|
        0 <= j < sources.len() && positions[j] <= a < sources[j].len() ==> text_precedes(
            last,
            (#[trigger] sources[j][a]).0,
        )
}

/// Whether `record` was taken from the last list that holds its key at a
/// place that has been passed.
spec fn has_origin(
    sources: Seq<Seq<(Seq<char>, Seq<char>)>>,
    positions: Seq<usize>,
    record: (Seq<char>, Seq<char>),
) -> bool {
    exists|j: int, a: int| taken_from(sources, positions, record, j, a)
}

/// Whether every record of `merged` was taken from the last list that
/// holds its key at a place that has been passed.
spec fn written_from_last(
    sources: Seq<Seq<(Seq<char>, Seq<char>)>>,
    positions: Seq<usize>,
    merged: Seq<(Seq<char>, Seq<char>)>,
) -> bool {
    forall|p: int|
        0 <= p < merged.len() ==> has_origin(sources, positions, #[trigger] merged[p])
}

/// What holds in the middle of a merge, when each list has been passed up
/// to its position and `merged` has been written: the positions are within
/// the lists; `merged` ascends; every key that has been passed is in
/// `merged`; every record that has not been passed has a key behind the
/// last of `merged`; and every record of `merged` was taken from the last
/// list that holds its key at a place that has been passed.
spec fn merging(
    sources: Seq<Seq<(Seq<char>, Seq<char>)>>,
    positions: Seq<usize>,
    merged: Seq<(Seq<char>, Seq<char>)>,
) -> bool {
    &&& within_sources(sources, positions)
    &&& strictly_ascending(merged)
    &&& passed_are_written(sources, positions, merged)
    &&& merged.len() > 0 ==> unread_are_behind(sources, positions, merged.last().0)
    &&& written_from_last(sources, positions, merged)
}

/// The number of records that have not been passed in the first `upto`
/// lists.
spec fn unread_upto(
    sources: Seq<Seq<(Seq<char>, Seq<char>)>>,
    positions: Seq<usize>,
    upto: int,
) -> int
    decreases upto,
{
    if upto <= 0 {
        0
    } else {
        unread_upto(sources, positions, upto - 1) + (sources[upto - 1].len() - positions[upto - 1])
    }
}

proof fn lemma_unread_falls(
    sources: Seq<Seq<(Seq<char>, Seq<char>)>>,
    before: Seq<usize>,
    after: Seq<usize>,
    moved: int,
    upto: int,
)
    requires
        0 <= upto <= sources.len(),
        before.len() == sources.len(),
        after.len() == sources.len(),
        forall|j: int| 0 <= j < sources.len() ==> before[j] <= #[trigger] after[j] <= sources[j].len(),
        0 <= moved < sources.len(),
        before[moved] < after[moved],
    ensures
        0 <= unread_upto(sources, after, upto) <= unread_upto(sources, before, upto),
        moved < upto ==> unread_upto(sources, after, upto) < unread_upto(sources, before, upto),
    decreases upto,
{
    if upto > 0 {
        lemma_unread_falls(sources, before, after, moved, upto - 1);
    }
}

/// Every key of ascending records comes before a key that the last of them
/// comes before.
proof fn lemma_all_before(merged: Seq<(Seq<char>, Seq<char>)>, key: Seq<char>)
    requires
        strictly_ascending(merged),
        merged.len() > 0 ==> text_precedes(merged.last().0, key),
    ensures
        forall|p: int| 0 <= p < merged.len() ==> text_precedes((#[trigger] merged[p]).0, key),
{
    assert forall|p: int| 0 <= p < merged.len() implies text_precedes(
        (#[trigger] merged[p]).0,
        key,
    ) by {
        if p < merged.len() - 1 {
            lemma_text_precedes_transitive(merged[p].0, merged.last().0, key);
        }
    }
}

/// Whether `moved` is `positions` with every list moved past its record at
/// the position where that record has the key `key`.
spec fn moved_past(
    sources: Seq<Seq<(Seq<char>, Seq<char>)>>,
    positions: Seq<usize>,
    key: Seq<char>,
    moved: Seq<usize>,
) -> bool {
    &&& moved.len() == sources.len()
    &&& forall|j: int|
        0 <= j < sources.len() ==> #[trigger] moved[j] == if positions[j] < sources[j].len()
            && sources[j][positions[j] as int].0 == key {
            positions[j] + 1
        } else {
            positions[j] as int
        }
}

proof fn lemma_step_passed(
    sources: Seq<Seq<(Seq<char>, Seq<char>)>>,
    positions: Seq<usize>,
    merged: Seq<(Seq<char>, Seq<char>)>,
    record: (Seq<char>, Seq<char>),
    moved: Seq<usize>,
)
    requires
        within_sources(sources, positions),
        passed_are_written(sources, positions, merged),
        moved_past(sources, positions, record.0, moved),
    ensures
        passed_are_written(sources, moved, merged.push(record)),
{
    let longer = merged.push(record);
    let last = merged.len() as int;
    assert(longer[last] == record);
    assert forall|j: int, a: int| 0 <= j < sources.len() && 0 <= a < moved[j] implies exists|
        p: int,
    |
        0 <= p < longer.len() && (#[trigger] longer[p]).0 == (#[trigger] sources[j][a]).0 by {
        if a < positions[j] {
            let p = choose|p: int|
                0 <= p < merged.len() && (#[trigger] merged[p]).0 == sources[j][a].0;
            assert(longer[p] == merged[p]);
        }
    }
}

proof fn lemma_step_unread(
    sources: Seq<Seq<(Seq<char>, Seq<char>)>>,
    positions: Seq<usize>,
    key: Seq<char>,
    moved: Seq<usize>,
)
    requires
        sources_ascend(sources),
        within_sources(sources, positions),
        forall|j: int|
            0 <= j < sources.len() && positions[j] < sources[j].len() ==> !text_precedes(
                (#[trigger] sources[j][positions[j] as int]).0,
                key,
            ),
        moved_past(sources, positions, key, moved),
    ensures
        unread_are_behind(sources, moved, key),
        within_sources(sources, moved),
{
    assert forall|j: int, a: int|
        0 <= j < sources.len() && moved[j] <= a < sources[j].len() implies text_precedes(
        key,
        (#[trigger] sources[j][a]).0,
    ) by {
        let at = positions[j] as int;
        let list = sources[j];
        let head = list[at].0;
        lemma_text_precedes_total(key, head);
        if moved[j] == positions[j] {
            if a > at {
                lemma_text_precedes_transitive(key, head, list[a].0);
            }
        }
    }
}

proof fn lemma_step_written_old(
    sources: Seq<Seq<(Seq<char>, Seq<char>)>>,
    positions: Seq<usize>,
    record: (Seq<char>, Seq<char>),
    key: Seq<char>,
    moved: Seq<usize>,
    j: int,
    a: int,
)
    requires
        within_sources(sources, positions),
        moved_past(sources, positions, key, moved),
        taken_from(sources, positions, record, j, a),
        record.0 != key,
    ensures
        taken_from(sources, moved, record, j, a),
{
}

proof fn lemma_step_written_new(
    sources: Seq<Seq<(Seq<char>, Seq<char>)>>,
    positions: Seq<usize>,
    merged: Seq<(Seq<char>, Seq<char>)>,
    winner: int,
    moved: Seq<usize>,
)
    requires
        within_sources(sources, positions),
        passed_are_written(sources, positions, merged),
        0 <= winner < sources.len(),
        positions[winner] < sources[winner].len(),
        forall|p: int|
            0 <= p < merged.len() ==> (#[trigger] merged[p]).0
                != sources[winner][positions[winner] as int].0,
        forall|j: int|
            winner < j < sources.len() && positions[j] < sources[j].len() ==> (
            #[trigger] sources[j][positions[j] as int]).0
                != sources[winner][positions[winner] as int].0,
        moved_past(sources, positions, sources[winner][positions[winner] as int].0, moved),
    ensures
        taken_from(
            sources,
            moved,
            sources[winner][positions[winner] as int],
            winner,
            positions[winner] as int,
        ),
{
}

proof fn lemma_step_written(
    sources: Seq<Seq<(Seq<char>, Seq<char>)>>,
    positions: Seq<usize>,
    merged: Seq<(Seq<char>, Seq<char>)>,
    winner: int,
    moved: Seq<usize>,
)
    requires
        within_sources(sources, positions),
        passed_are_written(sources, positions, merged),
        written_from_last(sources, positions, merged),
        0 <= winner < sources.len(),
        positions[winner] < sources[winner].len(),
        forall|p: int|
            0 <= p < merged.len() ==> (#[trigger] merged[p]).0
                != sources[winner][positions[winner] as int].0,
        forall|j: int|
            winner < j < sources.len() && positions[j] < sources[j].len() ==> (
            #[trigger] sources[j][positions[j] as int]).0
                != sources[winner][positions[winner] as int].0,
        moved_past(sources, positions, sources[winner][positions[winner] as int].0, moved),
    ensures
        written_from_last(sources, moved, merged.push(sources[winner][positions[winner] as int])),
{
    let record = sources[winner][positions[winner] as int];
    let key = record.0;
    let longer = merged.push(record);
    let last = merged.len() as int;
    lemma_step_written_new(sources, positions, merged, winner, moved);
    assert forall|p: int| 0 <= p < longer.len() implies has_origin(
        sources,
        moved,
        #[trigger] longer[p],
    ) by {
        if p < last {
            let (j, a) = choose|j: int, a: int| taken_from(sources, positions, merged[p], j, a);
            lemma_step_written_old(sources, positions, merged[p], key, moved, j, a);
        }
    }
}

proof fn lemma_step_ascends(merged: Seq<(Seq<char>, Seq<char>)>, record: (Seq<char>, Seq<char>))
    requires
        strictly_ascending(merged),
        merged.len() > 0 ==> text_precedes(merged.last().0, record.0),
    ensures
        strictly_ascending(merged.push(record)),
        merged.push(record).last() == record,
        forall|p: int| 0 <= p < merged.len() ==> (#[trigger] merged[p]).0 != record.0,
{
    lemma_all_before(merged, record.0);
    assert forall|p: int| 0 <= p < merged.len() implies (#[trigger] merged[p]).0 != record.0 by {
        lemma_text_precedes_total(merged[p].0, record.0);
    }
}

/// One step of the merge keeps what holds in its middle: the least key at
/// the positions is written with the value of the last list that has it
/// there, and every list that has it there is moved past it.
proof fn lemma_merge_step(
    sources: Seq<Seq<(Seq<char>, Seq<char>)>>,
    positions: Seq<usize>,
    merged: Seq<(Seq<char>, Seq<char>)>,
    winner: int,
    moved: Seq<usize>,
)
    requires
        sources_ascend(sources),
        merging(sources, positions, merged),
        0 <= winner < sources.len(),
        positions[winner] < sources[winner].len(),
        forall|j: int|
            0 <= j < sources.len() && positions[j] < sources[j].len() ==> !text_precedes(
                (#[trigger] sources[j][positions[j] as int]).0,
                sources[winner][positions[winner] as int].0,
            ),
        forall|j: int|
            winner < j < sources.len() && positions[j] < sources[j].len() ==> (
            #[trigger] sources[j][positions[j] as int]).0
                != sources[winner][positions[winner] as int].0,
        moved_past(sources, positions, sources[winner][positions[winner] as int].0, moved),
    ensures
        merging(sources, moved, merged.push(sources[winner][positions[winner] as int])),
{
    let record = sources[winner][positions[winner] as int];
    lemma_step_ascends(merged, record);
    lemma_step_passed(sources, positions, merged, record, moved);
    lemma_step_unread(sources, positions, record.0, moved);
    lemma_step_written(sources, positions, merged, winner, moved);
}

proof fn lemma_merge_end_written(
    sources: Seq<Seq<(Seq<char>, Seq<char>)>>,
    positions: Seq<usize>,
    merged: Seq<(Seq<char>, Seq<char>)>,
    p: int,
)
    requires
        sources_ascend(sources),
        strictly_ascending(merged),
        written_from_last(sources, positions, merged),
        forall|j: int| 0 <= j < sources.len() ==> #[trigger] positions[j] == sources[j].len(),
        0 <= p < merged.len(),
    ensures
        layers(source_maps(sources)).contains_key(merged[p].0),
        layers(source_maps(sources))[merged[p].0] == merged[p].1,
{
    let maps = source_maps(sources);
    let key = merged[p].0;
    let (j, a) = choose|j: int, a: int| taken_from(sources, positions, merged[p], j, a);
    lemma_records_map_at(sources[j], a);
    assert forall|later: int| j < later < maps.len() implies !(#[trigger] maps[later]).contains_key(
        key,
    ) by {
        lemma_records_map_domain(sources[later], key);
        if maps[later].contains_key(key) {
            let a2 = choose|a2: int|
                0 <= a2 < sources[later].len() && #[trigger] sources[later][a2].0 == key;
            assert(sources[later][a2].0 != merged[p].0);
        }
    }
    lemma_layers_top(maps, key, j);
}

proof fn lemma_merge_end_passed(
    sources: Seq<Seq<(Seq<char>, Seq<char>)>>,
    positions: Seq<usize>,
    merged: Seq<(Seq<char>, Seq<char>)>,
    key: Seq<char>,
)
    requires
        passed_are_written(sources, positions, merged),
        forall|j: int| 0 <= j < sources.len() ==> #[trigger] positions[j] == sources[j].len(),
        layers(source_maps(sources)).contains_key(key),
    ensures
        records_map(merged).contains_key(key),
{
    let maps = source_maps(sources);
    lemma_layers_domain(maps, key);
    let j = choose|j: int| 0 <= j < maps.len() && (#[trigger] maps[j]).contains_key(key);
    lemma_records_map_domain(sources[j], key);
    lemma_records_map_domain(merged, key);
}

proof fn lemma_merge_end_key(
    sources: Seq<Seq<(Seq<char>, Seq<char>)>>,
    positions: Seq<usize>,
    merged: Seq<(Seq<char>, Seq<char>)>,
    key: Seq<char>,
)
    requires
        sources_ascend(sources),
        strictly_ascending(merged),
        passed_are_written(sources, positions, merged),
        written_from_last(sources, positions, merged),
        forall|j: int| 0 <= j < sources.len() ==> #[trigger] positions[j] == sources[j].len(),
    ensures
        records_map(merged).contains_key(key) <==> layers(source_maps(sources)).contains_key(key),
        records_map(merged).contains_key(key) ==> records_map(merged)[key] == layers(
            source_maps(sources),
        )[key],
{
    if records_map(merged).contains_key(key) {
        lemma_records_map_domain(merged, key);
        let p = choose|p: int| 0 <= p < merged.len() && #[trigger] merged[p].0 == key;
        lemma_records_map_at(merged, p);
        lemma_merge_end_written(sources, positions, merged, p);
    }
    if layers(source_maps(sources)).contains_key(key) {
        lemma_merge_end_passed(sources, positions, merged, key);
    }
}

/// Once every list has been passed to its end, the mapping of what was
/// written is the mappings of the lists laid one over the other.
proof fn lemma_merge_end(
    sources: Seq<Seq<(Seq<char>, Seq<char>)>>,
    positions: Seq<usize>,
    merged: Seq<(Seq<char>, Seq<char>)>,
)
    requires
        sources_ascend(sources),
        merging(sources, positions, merged),
        forall|j: int| 0 <= j < sources.len() ==> #[trigger] positions[j] == sources[j].len(),
    ensures
        records_map(merged) == layers(source_maps(sources)),
{
    let all = layers(source_maps(sources));
    let written = records_map(merged);
    assert forall|key: Seq<char>| #[trigger]
        written.contains_key(key) == all.contains_key(key) && (written.contains_key(key)
            ==> written[key] == all[key]) by {
        lemma_merge_end_key(sources, positions, merged, key);
    }
}

/// Among the lists that have not been passed to their end, the last of
/// those whose record at the position has the least key; or nothing where
/// every list has been passed to its end.
fn pick(lists: &Vec<Vec<(String, String)>>, positions: &Vec<usize>) -> (winner: Option<usize>)
    requires
        positions@.len() == lists@.len(),
        forall|j: int| 0 <= j < lists@.len() ==> #[trigger] positions@[j] <= lists@[j]@.len(),
    ensures
        match winner {
            None => forall|j: int| 0 <= j < lists@.len() ==> #[trigger] positions@[j] == lists@[j]@.len(),
            Some(w) => {
                &&& w < lists@.len()
                &&& positions@[w as int] < lists@[w as int]@.len()
                &&& forall|j: int|
                    0 <= j < lists@.len() && positions@[j] < lists@[j]@.len() ==> !text_precedes(
                        (#[trigger] lists@[j]@[positions@[j] as int]).0@,
                        lists@[w as int]@[positions@[w as int] as int].0@,
                    )
                &&& forall|j: int|
                    w < j < lists@.len() && positions@[j] < lists@[j]@.len() ==> text_precedes(
                        lists@[w as int]@[positions@[w as int] as int].0@,
                        (#[trigger] lists@[j]@[positions@[j] as int]).0@,
                    )
            },
        },
{
    let mut winner: Option<usize> = None;
    let mut j: usize = lists.len();
    while j > 0
        invariant
            positions@.len() == lists@.len(),
            forall|j: int| 0 <= j < lists@.len() ==> #[trigger] positions@[j] <= lists@[j]@.len(),
            j <= lists@.len(),
            match winner {
                None => forall|k: int|
                    j <= k < lists@.len() ==> #[trigger] positions@[k] == lists@[k]@.len(),
                Some(w) => {
                    &&& j <= w < lists@.len()
                    &&& positions@[w as int] < lists@[w as int]@.len()
                    &&& forall|k: int|
                        j <= k < lists@.len() && positions@[k] < lists@[k]@.len()
                            ==> !text_precedes(
                            (#[trigger] lists@[k]@[positions@[k] as int]).0@,
                            lists@[w as int]@[positions@[w as int] as int].0@,
                        )
                    &&& forall|k: int|
                        w < k < lists@.len() && positions@[k] < lists@[k]@.len() ==> text_precedes(
                            lists@[w as int]@[positions@[w as int] as int].0@,
                            (#[trigger] lists@[k]@[positions@[k] as int]).0@,
                        )
                },
            },
        decreases j,
    {
        j -= 1;
        if positions[j] < lists[j].len() {
            let head = &lists[j][positions[j]].0;
            let ghost head_key = lists@[j as int]@[positions@[j as int] as int].0@;
            proof {
                lemma_text_precedes_total(head_key, head_key);
            }
            match winner {
                None => {
                    winner = Some(j);
                },
                Some(w) => {
                    let best = &lists[w][positions[w]].0;
                    let ghost best_key = lists@[w as int]@[positions@[w as int] as int].0@;
                    match compare_text(head.as_str(), best.as_str()) {
                        Position::Before => {
                            proof {
                                assert forall|k: int|
                                    j < k < lists@.len() && positions@[k] < lists@[k]@.len() implies text_precedes(
                                    head_key,
                                    (#[trigger] lists@[k]@[positions@[k] as int]).0@,
                                ) by {
                                    let other = lists@[k]@[positions@[k] as int].0@;
                                    lemma_text_precedes_total(other, best_key);
                                    if other != best_key {
                                        lemma_text_precedes_transitive(head_key, best_key, other);
                                    }
                                }
                                assert forall|k: int|
                                    j <= k < lists@.len() && positions@[k] < lists@[k]@.len() implies !text_precedes(
                                    (#[trigger] lists@[k]@[positions@[k] as int]).0@,
                                    head_key,
                                ) by {
                                    let other = lists@[k]@[positions@[k] as int].0@;
                                    lemma_text_precedes_total(other, head_key);
                                }
                            }
                            winner = Some(j);
                        },
                        _ => {},
                    }
                },
            }
        }
    }
    winner
}

/// Moves every list whose record at the position has the key `key` past
/// that record.
fn advance(lists: &Vec<Vec<(String, String)>>, positions: &mut Vec<usize>, key: &str)
    requires
        old(positions)@.len() == lists@.len(),
        forall|j: int| 0 <= j < lists@.len() ==> #[trigger] old(positions)@[j] <= lists@[j]@.len(),
    ensures
        final(positions)@.len() == lists@.len(),
        forall|j: int|
            0 <= j < lists@.len() ==> #[trigger] final(positions)@[j] == if old(positions)@[j]
                < lists@[j]@.len() && lists@[j]@[old(positions)@[j] as int].0@ == key@ {
                old(positions)@[j] + 1
            } else {
                old(positions)@[j] as int
            },
{
    let mut j: usize = 0;
    while j < lists.len()
        invariant
            j <= lists@.len(),
            positions@.len() == lists@.len(),
            forall|k: int| 0 <= k < lists@.len() ==> #[trigger] old(positions)@[k] <= lists@[k]@.len(),
            forall|k: int| j <= k < lists@.len() ==> #[trigger] positions@[k] == old(positions)@[k],
            forall|k: int|
                0 <= k < j ==> #[trigger] positions@[k] == if old(positions)@[k] < lists@[k]@.len()
                    && lists@[k]@[old(positions)@[k] as int].0@ == key@ {
                    old(positions)@[k] + 1
                } else {
                    old(positions)@[k] as int
                },
        decreases lists@.len() - j,
    {
        let at = positions[j];
        if at < lists[j].len() {
            if same_text(lists[j][at].0.as_str(), key) {
                positions.set(j, at + 1);
            }
        }
        j += 1;
    }
}

/// Merges lists of records, each in strictly ascending order of its keys,
/// into one such list.  The least key at the heads of the lists is written
/// again and again, each time with the value of the last of the lists that
/// hold it, and all the lists that hold it move past it.  So the result has
/// every key of every list once, and a key that several lists hold has the
/// value that the last of them gives it.
pub fn merge(lists: &Vec<Vec<(String, String)>>) -> (merged: Vec<(String, String)>)
    requires
        sources_ascend(sources_of(lists@)),
    ensures
        strictly_ascending(records_of(merged@)),
        records_map(records_of(merged@)) == layers(source_maps(sources_of(lists@))),
{
    let ghost sources = sources_of(lists@);
    let mut positions: Vec<usize> = Vec::new();
    let mut j: usize = 0;
    while j < lists.len()
        invariant
            j <= lists@.len(),
            positions@.len() == j,
            forall|k: int| 0 <= k < j ==> #[trigger] positions@[k] == 0,
        decreases lists@.len() - j,
    {
        positions.push(0);
        j += 1;
    }
    let mut merged: Vec<(String, String)> = Vec::new();
    loop
        invariant
            sources == sources_of(lists@),
            sources_ascend(sources),
            merging(sources, positions@, records_of(merged@)),
        decreases unread_upto(sources, positions@, sources.len() as int),
    {
        let ghost before = positions@;
        let ghost written = records_of(merged@);
        match pick(lists, &positions) {
            None => {
                proof {
                    lemma_merge_end(sources, positions@, written);
                }
                return merged;
            },
            Some(winner) => {
                let record = &lists[winner][positions[winner]];
                let ghost shown = sources[winner as int][before[winner as int] as int];
                merged.push((record.0.clone(), record.1.clone()));
                advance(lists, &mut positions, record.0.as_str());
                proof {
                    assert(records_of(merged@) =~= written.push(shown));
                    lemma_merge_step(sources, before, written, winner as int, positions@);
                    lemma_unread_falls(
                        sources,
                        before,
                        positions@,
                        winner as int,
                        sources.len() as int,
                    );
                }
            },
        }
    }
}

} // verus!
