//! The history table as a mathematical object, and what holds of it.
//!
//! A table is the sequence of its rows in order of arrival. Recording a sighting either leaves
//! the table alone, because a newer sighting of the same command is stored, or drops whatever is
//! stored for the command and adds the whole record at the end. Everything a reader of history
//! relies on follows from that one rule, and the proof functions below say what.

use vstd::prelude::*;

use crate::order::{arrangement_exists, arrangement_holds_each_once, arrangement_is_unique};
use crate::text::blank_text_trims_to_nothing;

verus! {

/// A stored command with what is known of its most recent run.
#[verifier::ext_equal]
pub struct Row {
    pub cmd: Seq<char>,
    pub cwd: Option<Seq<char>>,
    pub exit: Option<i64>,
    /// Unix seconds. A table written by another program may hold none.
    pub ts: Option<i64>,
    pub session: Option<Seq<char>>,
}

/// One sighting of a command.
#[verifier::ext_equal]
pub struct Sighting {
    pub cmd: Seq<char>,
    pub cwd: Option<Seq<char>>,
    pub exit: Option<i64>,
    /// Unix seconds.
    pub ts: i64,
    pub session: Option<Seq<char>>,
}

/// The row that a sighting leaves behind.
pub open spec fn record(s: Sighting) -> Row {
    Row { cmd: s.cmd, cwd: s.cwd, exit: s.exit, ts: Some(s.ts), session: s.session }
}

/// No command has two rows.
pub open spec fn distinct(table: Seq<Row>) -> bool {
    forall|i: int, j: int|
        0 <= i < j < table.len() ==> #[trigger] table[i].cmd != #[trigger] table[j].cmd
}

/// The rows of other commands, in their order.
pub open spec fn without(table: Seq<Row>, cmd: Seq<char>) -> Seq<Row> {
    table.filter(|row: Row| row.cmd != cmd)
}

/// Whether a row is a sighting of the same command at a later time.
pub open spec fn newer_row(row: Row, s: Sighting) -> bool {
    row.cmd == s.cmd && row.ts is Some && row.ts->0 > s.ts
}

/// Whether the table holds a newer sighting of the same command.
pub open spec fn outdated(table: Seq<Row>, s: Sighting) -> bool {
    exists|i: int| 0 <= i < table.len() && newer_row(#[trigger] table[i], s)
}

/// The table after recording one sighting.
pub open spec fn observed(table: Seq<Row>, s: Sighting) -> Seq<Row> {
    if outdated(table, s) {
        table
    } else {
        without(table, s.cmd).push(record(s))
    }
}

/// The table after recording sightings one after the other.
pub open spec fn replayed(table: Seq<Row>, sightings: Seq<Sighting>) -> Seq<Row>
    decreases sightings.len(),
{
    if sightings.len() == 0 {
        table
    } else {
        observed(replayed(table, sightings.drop_last()), sightings.last())
    }
}

/// The rows that differ from what was stored, after recording one sighting: its record is one of
/// them, unless the table holds a newer one.
pub open spec fn refreshed(table: Seq<Row>, fresh: Seq<Row>, s: Sighting) -> Seq<Row> {
    if outdated(table, s) {
        fresh
    } else {
        without(fresh, s.cmd).push(record(s))
    }
}

/// The rows that differ from what was stored, after recording sightings one after the other.
pub open spec fn all_refreshed(
    table: Seq<Row>,
    fresh: Seq<Row>,
    sightings: Seq<Sighting>,
) -> Seq<Row>
    decreases sightings.len(),
{
    if sightings.len() == 0 {
        fresh
    } else {
        refreshed(
            replayed(table, sightings.drop_last()),
            all_refreshed(table, fresh, sightings.drop_last()),
            sightings.last(),
        )
    }
}

/// The table after writing rows to it one after the other, each in place of what is stored for its
/// command and as the latest arrival.
pub open spec fn written(table: Seq<Row>, rows: Seq<Row>) -> Seq<Row>
    decreases rows.len(),
{
    if rows.len() == 0 {
        table
    } else {
        without(written(table, rows.drop_last()), rows.last().cmd).push(rows.last())
    }
}

/// What a batch records: the sightings whose command is not blank, with the command trimmed.
pub open spec fn recorded(sightings: Seq<Sighting>) -> Seq<Sighting>
    decreases sightings.len(),
{
    if sightings.len() == 0 {
        Seq::empty()
    } else {
        let s = sightings.last();
        let earlier = recorded(sightings.drop_last());
        if crate::text::blank(s.cmd) {
            earlier
        } else {
            earlier.push(Sighting { cmd: crate::text::trimmed(s.cmd), ..s })
        }
    }
}

/// Whether row `i` is listed before row `j`: the newer time first, a row without a time after
/// any with one, and between equal times the later arrival first.
pub open spec fn listed_before(table: Seq<Row>, i: int, j: int) -> bool {
    match (table[i].ts, table[j].ts) {
        (Some(a), Some(b)) => a > b || (a == b && i > j),
        (Some(_), None) => true,
        (None, Some(_)) => false,
        (None, None) => i > j,
    }
}

/// The positions of the rows, newest first.
pub open spec fn newest_order(table: Seq<Row>) -> Seq<int> {
    crate::order::arrangement(
        |i: int| 0 <= i < table.len(),
        |i: int, j: int| listed_before(table, i, j),
    )
}

/// The `limit` newest rows, newest first, or all of them when there are fewer.
pub open spec fn newest(table: Seq<Row>, limit: nat) -> Seq<Row> {
    let order = newest_order(table);
    let count = if limit < order.len() {
        limit
    } else {
        order.len()
    };
    Seq::new(count, |k: int| table[order[k]])
}

// ---------------------------------------------------------------------------------------------
// Rows of other commands
// ---------------------------------------------------------------------------------------------

proof fn lemma_without_push(table: Seq<Row>, row: Row, cmd: Seq<char>)
    ensures
        without(table.push(row), cmd) == if row.cmd == cmd {
            without(table, cmd)
        } else {
            without(table, cmd).push(row)
        },
{
    reveal(Seq::filter);
    assert(table.push(row).drop_last() =~= table);
}

/// Unfold the last row of a table.
pub proof fn lemma_without_last(table: Seq<Row>, cmd: Seq<char>)
    requires
        table.len() > 0,
    ensures
        without(table, cmd) == if table.last().cmd == cmd {
            without(table.drop_last(), cmd)
        } else {
            without(table.drop_last(), cmd).push(table.last())
        },
{
    assert(table =~= table.drop_last().push(table.last()));
    lemma_without_push(table.drop_last(), table.last(), cmd);
}

/// An empty table holds nothing.
pub proof fn lemma_without_empty(cmd: Seq<char>)
    ensures
        without(Seq::empty(), cmd) == Seq::<Row>::empty(),
{
    reveal(Seq::filter);
}

/// Every row kept is a row of the table, of another command, and every such row is kept.
pub proof fn lemma_without_rows(table: Seq<Row>, cmd: Seq<char>)
    ensures
        forall|k: int|
            0 <= k < without(table, cmd).len() ==> #[trigger] without(table, cmd)[k].cmd != cmd
                && table.contains(without(table, cmd)[k]),
        forall|i: int|
            0 <= i < table.len() && #[trigger] table[i].cmd != cmd ==> without(
                table,
                cmd,
            ).contains(table[i]),
    decreases table.len(),
{
    if table.len() == 0 {
        assert(table =~= Seq::empty());
        lemma_without_empty(cmd);
    } else {
        let rest = table.drop_last();
        let kept = without(table, cmd);
        let before = without(rest, cmd);
        lemma_without_rows(rest, cmd);
        lemma_without_last(table, cmd);
        assert forall|k: int| 0 <= k < kept.len() implies #[trigger] kept[k].cmd != cmd
            && table.contains(kept[k]) by {
            if k < before.len() {
                assert(kept[k] == before[k]);
                let i = choose|i: int| 0 <= i < rest.len() && rest[i] == before[k];
                assert(table[i] == kept[k]);
            } else {
                assert(table[table.len() - 1] == kept[k]);
            }
        }
        assert forall|i: int| 0 <= i < table.len() && #[trigger] table[i].cmd != cmd implies
            kept.contains(table[i]) by {
            if i < rest.len() {
                assert(rest[i] == table[i]);
                assert(before.contains(rest[i]));
                let k = choose|k: int| 0 <= k < before.len() && before[k] == table[i];
                assert(kept[k] == table[i]);
            } else {
                assert(kept[kept.len() - 1] == table[i]);
            }
        }
    }
}

proof fn lemma_without_twice(table: Seq<Row>, a: Seq<char>, b: Seq<char>)
    ensures
        without(without(table, a), b) == without(without(table, b), a),
        without(without(table, a), a) == without(table, a),
    decreases table.len(),
{
    if table.len() == 0 {
        assert(table =~= Seq::empty());
        lemma_without_empty(a);
        lemma_without_empty(b);
    } else {
        let rest = table.drop_last();
        let row = table.last();
        lemma_without_twice(rest, a, b);
        lemma_without_last(table, a);
        lemma_without_last(table, b);
        lemma_without_push(without(rest, a), row, a);
        lemma_without_push(without(rest, a), row, b);
        lemma_without_push(without(rest, b), row, a);
    }
}

/// A table without a command's rows is the table when there are none.
pub proof fn lemma_without_absent(table: Seq<Row>, cmd: Seq<char>)
    requires
        forall|i: int| 0 <= i < table.len() ==> #[trigger] table[i].cmd != cmd,
    ensures
        without(table, cmd) == table,
    decreases table.len(),
{
    if table.len() == 0 {
        assert(table =~= Seq::empty());
        lemma_without_empty(cmd);
    } else {
        let rest = table.drop_last();
        assert forall|i: int| 0 <= i < rest.len() implies #[trigger] rest[i].cmd != cmd by {
            assert(rest[i] == table[i]);
        }
        lemma_without_absent(rest, cmd);
        lemma_without_last(table, cmd);
        assert(table[table.len() - 1].cmd != cmd);
        assert(rest.push(table.last()) =~= table);
    }
}

proof fn lemma_outdated_without(table: Seq<Row>, s: Sighting, cmd: Seq<char>)
    ensures
        outdated(without(table, cmd), s) == (cmd != s.cmd && outdated(table, s)),
{
    lemma_without_rows(table, cmd);
    let kept = without(table, cmd);
    if outdated(kept, s) {
        let k = choose|k: int| 0 <= k < kept.len() && newer_row(#[trigger] kept[k], s);
        let i = choose|i: int| 0 <= i < table.len() && table[i] == kept[k];
        assert(newer_row(table[i], s));
    }
    if cmd != s.cmd && outdated(table, s) {
        let i = choose|i: int| 0 <= i < table.len() && newer_row(#[trigger] table[i], s);
        assert(kept.contains(table[i]));
        let k = choose|k: int| 0 <= k < kept.len() && kept[k] == table[i];
        assert(newer_row(kept[k], s));
    }
}

proof fn lemma_outdated_push(table: Seq<Row>, row: Row, s: Sighting)
    ensures
        outdated(table.push(row), s) == (outdated(table, s) || newer_row(row, s)),
{
    let longer = table.push(row);
    if outdated(longer, s) {
        let k = choose|k: int| 0 <= k < longer.len() && newer_row(#[trigger] longer[k], s);
        if k < table.len() {
            assert(newer_row(table[k], s));
        }
    }
    if outdated(table, s) {
        let k = choose|k: int| 0 <= k < table.len() && newer_row(#[trigger] table[k], s);
        assert(newer_row(longer[k], s));
    }
    if newer_row(row, s) {
        assert(newer_row(longer[table.len() as int], s));
    }
}

// ---------------------------------------------------------------------------------------------
// What recording keeps
// ---------------------------------------------------------------------------------------------

/// A table with one row per command still has one row per command after a sighting.
pub proof fn observing_keeps_one_row_per_command(table: Seq<Row>, s: Sighting)
    requires
        distinct(table),
    ensures
        distinct(observed(table, s)),
{
    if !outdated(table, s) {
        lemma_without_distinct(table, s.cmd);
        lemma_without_rows(table, s.cmd);
    }
}

proof fn lemma_without_distinct(table: Seq<Row>, cmd: Seq<char>)
    requires
        distinct(table),
    ensures
        distinct(without(table, cmd)),
    decreases table.len(),
{
    if table.len() == 0 {
        assert(table =~= Seq::empty());
        lemma_without_empty(cmd);
    } else {
        let rest = table.drop_last();
        let row = table.last();
        assert(distinct(rest)) by {
            assert forall|i: int, j: int| 0 <= i < j < rest.len() implies #[trigger] rest[i].cmd
                != #[trigger] rest[j].cmd by {
                assert(rest[i] == table[i] && rest[j] == table[j]);
            }
        }
        lemma_without_distinct(rest, cmd);
        lemma_without_last(table, cmd);
        lemma_without_rows(rest, cmd);
        let before = without(rest, cmd);
        assert forall|k: int| 0 <= k < before.len() implies #[trigger] before[k].cmd != row.cmd by {
            assert(rest.contains(before[k]));
            let i = choose|i: int| 0 <= i < rest.len() && rest[i] == before[k];
            assert(table[i].cmd != table[table.len() - 1].cmd);
        }
    }
}

/// A batch keeps one row per command.
pub proof fn replaying_keeps_one_row_per_command(table: Seq<Row>, sightings: Seq<Sighting>)
    requires
        distinct(table),
    ensures
        distinct(replayed(table, sightings)),
    decreases sightings.len(),
{
    if sightings.len() > 0 {
        replaying_keeps_one_row_per_command(table, sightings.drop_last());
        observing_keeps_one_row_per_command(
            replayed(table, sightings.drop_last()),
            sightings.last(),
        );
    }
}

/// A sighting older than the stored one changes nothing, so an import cannot overwrite what a
/// live shell recorded.
pub proof fn an_older_sighting_changes_nothing(table: Seq<Row>, s: Sighting, i: int)
    requires
        0 <= i < table.len(),
        table[i].cmd == s.cmd,
        table[i].ts is Some,
        s.ts < table[i].ts->0,
    ensures
        observed(table, s) == table,
{
    assert(newer_row(table[i], s));
}

/// A sighting at least as new as whatever is stored for its command becomes the last row, whole.
pub proof fn a_newer_sighting_replaces_the_complete_record(table: Seq<Row>, s: Sighting)
    requires
        forall|i: int|
            0 <= i < table.len() && (#[trigger] table[i]).cmd == s.cmd && table[i].ts is Some
                ==> table[i].ts->0 <= s.ts,
    ensures
        observed(table, s).last() == record(s),
        forall|k: int|
            0 <= k < observed(table, s).len() && (#[trigger] observed(table, s)[k]).cmd == s.cmd
                ==> observed(table, s)[k] == record(s),
{
    if outdated(table, s) {
        let i = choose|i: int| 0 <= i < table.len() && newer_row(#[trigger] table[i], s);
        assert(table[i].ts->0 <= s.ts);
    }
    lemma_without_rows(table, s.cmd);
}

/// A sighting touches no other command: the rows of the others stay, in their order.
pub proof fn observing_touches_only_its_command(table: Seq<Row>, s: Sighting)
    ensures
        without(observed(table, s), s.cmd) == without(table, s.cmd),
{
    lemma_without_twice(table, s.cmd, s.cmd);
    lemma_without_push(without(table, s.cmd), record(s), s.cmd);
}

/// Whether a sighting is recorded depends on its command's rows alone, so it can be decided with
/// the rest of the table out of sight.
pub proof fn recording_depends_only_on_its_command(
    table: Seq<Row>,
    other: Seq<Row>,
    s: Sighting,
)
    requires
        forall|row: Row| row.cmd == s.cmd ==> (#[trigger] table.contains(row) <==> other.contains(
            row,
        )),
    ensures
        outdated(table, s) == outdated(other, s),
{
    if outdated(table, s) {
        let i = choose|i: int| 0 <= i < table.len() && newer_row(#[trigger] table[i], s);
        assert(table.contains(table[i]));
        let k = choose|k: int| 0 <= k < other.len() && other[k] == table[i];
        assert(newer_row(other[k], s));
    }
    if outdated(other, s) {
        let k = choose|k: int| 0 <= k < other.len() && newer_row(#[trigger] other[k], s);
        assert(other.contains(other[k]));
        assert(table.contains(other[k]));
        let i = choose|i: int| 0 <= i < table.len() && table[i] == other[k];
        assert(newer_row(table[i], s));
    }
}

/// Rows of a command make no difference to what is written for the others.
proof fn lemma_written_without(table: Seq<Row>, rows: Seq<Row>, cmd: Seq<char>)
    ensures
        without(written(table, without(rows, cmd)), cmd) == without(written(table, rows), cmd),
    decreases rows.len(),
{
    if rows.len() == 0 {
        assert(rows =~= Seq::empty());
        lemma_without_empty(cmd);
    } else {
        let rest = rows.drop_last();
        let row = rows.last();
        let before = written(table, rest);
        let others = without(rest, cmd);
        lemma_written_without(table, rest, cmd);
        lemma_without_last(rows, cmd);
        lemma_without_push(without(before, row.cmd), row, cmd);
        lemma_without_twice(before, row.cmd, cmd);
        if row.cmd != cmd {
            assert(others.push(row).drop_last() =~= others);
            lemma_without_push(without(written(table, others), row.cmd), row, cmd);
            lemma_without_twice(written(table, others), row.cmd, cmd);
        }
    }
}

/// Only the rows that a batch refreshed need writing: over what was stored, they give the table.
pub proof fn writing_the_refreshed_rows_stores_a_batch(
    table: Seq<Row>,
    sightings: Seq<Sighting>,
)
    ensures
        written(table, all_refreshed(table, Seq::empty(), sightings)) == replayed(table, sightings),
    decreases sightings.len(),
{
    if sightings.len() > 0 {
        let earlier = sightings.drop_last();
        let s = sightings.last();
        let fresh = all_refreshed(table, Seq::empty(), earlier);
        writing_the_refreshed_rows_stores_a_batch(table, earlier);
        let others = without(fresh, s.cmd);
        lemma_written_without(table, fresh, s.cmd);
        assert(others.push(record(s)).drop_last() =~= others);
    }
}

/// Whether the table holds a command with a time no earlier than the given one.
pub open spec fn seen_since(table: Seq<Row>, cmd: Seq<char>, ts: i64) -> bool {
    exists|i: int|
        0 <= i < table.len() && (#[trigger] table[i]).cmd == cmd && table[i].ts is Some
            && table[i].ts->0 >= ts
}

proof fn lemma_seen_since(table: Seq<Row>, s: Sighting, cmd: Seq<char>, ts: i64)
    requires
        seen_since(table, cmd, ts) || (s.cmd == cmd && s.ts == ts),
    ensures
        seen_since(observed(table, s), cmd, ts),
{
    let after = observed(table, s);
    if outdated(table, s) {
        if !seen_since(table, cmd, ts) {
            let i = choose|i: int| 0 <= i < table.len() && newer_row(#[trigger] table[i], s);
            assert(after[i].cmd == cmd);
        }
    } else {
        let last = after.len() - 1;
        assert(after[last] == record(s));
        if seen_since(table, cmd, ts) {
            let i = choose|i: int|
                0 <= i < table.len() && (#[trigger] table[i]).cmd == cmd && table[i].ts is Some
                    && table[i].ts->0 >= ts;
            if cmd == s.cmd {
                if s.ts < table[i].ts->0 {
                    assert(newer_row(table[i], s));
                }
            } else {
                lemma_without_rows(table, s.cmd);
                let kept = without(table, s.cmd);
                assert(kept.contains(table[i]));
                let k = choose|k: int| 0 <= k < kept.len() && kept[k] == table[i];
                assert(after[k] == table[i]);
            }
        }
    }
}

/// A batch loses nothing: what was stored stays stored with a time no earlier, and so does every
/// sighting of the batch.
pub proof fn a_batch_loses_no_command(
    table: Seq<Row>,
    sightings: Seq<Sighting>,
    cmd: Seq<char>,
    ts: i64,
)
    requires
        seen_since(table, cmd, ts) || exists|k: int|
            0 <= k < sightings.len() && (#[trigger] sightings[k]).cmd == cmd && sightings[k].ts
                == ts,
    ensures
        seen_since(replayed(table, sightings), cmd, ts),
    decreases sightings.len(),
{
    if sightings.len() > 0 {
        let earlier = sightings.drop_last();
        let s = sightings.last();
        if s.cmd == cmd && s.ts == ts {
            lemma_seen_since(replayed(table, earlier), s, cmd, ts);
        } else {
            if !seen_since(table, cmd, ts) {
                let k = choose|k: int|
                    0 <= k < sightings.len() && (#[trigger] sightings[k]).cmd == cmd
                        && sightings[k].ts == ts;
                assert(earlier[k] == sightings[k]);
            }
            a_batch_loses_no_command(table, earlier, cmd, ts);
            lemma_seen_since(replayed(table, earlier), s, cmd, ts);
        }
    }
}

/// A batch invents nothing: every row was stored before or is the whole record of a sighting of the
/// batch.
pub proof fn a_batch_invents_no_row(table: Seq<Row>, sightings: Seq<Sighting>, row: Row)
    requires
        replayed(table, sightings).contains(row),
    ensures
        table.contains(row) || exists|k: int|
            0 <= k < sightings.len() && row == record(#[trigger] sightings[k]),
    decreases sightings.len(),
{
    if sightings.len() > 0 {
        let earlier = sightings.drop_last();
        let s = sightings.last();
        let before = replayed(table, earlier);
        let after = observed(before, s);
        let i = choose|i: int| 0 <= i < after.len() && after[i] == row;
        if row == record(s) {
            assert(sightings[sightings.len() - 1] == s);
        } else {
            if !outdated(before, s) {
                lemma_without_rows(before, s.cmd);
                assert(without(before, s.cmd)[i] == row);
            }
            assert(before.contains(row));
            a_batch_invents_no_row(table, earlier, row);
            if !table.contains(row) {
                let k = choose|k: int|
                    0 <= k < earlier.len() && row == record(#[trigger] earlier[k]);
                assert(sightings[k] == earlier[k]);
            }
        }
    }
}

// ---------------------------------------------------------------------------------------------
// Importing twice
// ---------------------------------------------------------------------------------------------

/// A sighting that comes again after another one leaves no trace of having come before it.
proof fn lemma_only_the_later_sighting_counts(table: Seq<Row>, r: Sighting, p: Sighting)
    ensures
        observed(observed(observed(table, r), p), r) == observed(observed(table, p), r),
{
    let a = r.cmd;
    let b = p.cmd;
    lemma_without_twice(table, a, b);
    lemma_without_twice(without(table, b), a, a);
    lemma_without_twice(without(table, a), a, b);
    // The first three steps of either side, each with what it means for the next.
    let first = without(table, a).push(record(r));
    lemma_outdated_push(without(table, a), record(r), p);
    lemma_outdated_push(without(table, a), record(r), r);
    lemma_outdated_without(table, p, a);
    lemma_outdated_without(table, r, a);
    lemma_without_push(without(table, a), record(r), a);
    lemma_without_push(without(table, a), record(r), b);
    let other = without(table, b).push(record(p));
    lemma_outdated_push(without(table, b), record(p), r);
    lemma_outdated_without(table, r, b);
    lemma_without_push(without(table, b), record(p), a);
    let second = without(first, b).push(record(p));
    lemma_outdated_push(without(first, b), record(p), r);
    lemma_outdated_without(first, r, b);
    lemma_without_push(without(first, b), record(p), a);
    lemma_without_push(without(without(table, a), b), record(r), a);
    lemma_without_twice(without(without(table, a), b), a, a);
    if outdated(table, r) {
        assert(observed(table, r) == table);
    } else if a != b {
        if outdated(table, p) {
            assert(observed(first, p) == first);
            assert(observed(first, r) == without(first, a).push(record(r)));
        } else {
            assert(observed(first, p) == second);
            assert(without(first, b) == without(without(table, a), b).push(record(r)));
            assert(observed(second, r) == without(second, a).push(record(r)));
        }
    } else {
        if newer_row(record(r), p) {
            assert(observed(first, p) == first);
            assert(observed(first, r) == without(first, a).push(record(r)));
            if !outdated(table, p) {
                assert(observed(other, r) == without(other, a).push(record(r)));
            }
        } else {
            assert(!outdated(table, p)) by {
                if outdated(table, p) {
                    let i = choose|i: int|
                        0 <= i < table.len() && newer_row(#[trigger] table[i], p);
                    assert(newer_row(table[i], r));
                }
            }
            assert(observed(first, p) == second);
            assert(second == other);
        }
    }
}

/// The same over a whole batch in between.
proof fn lemma_only_the_last_counts(table: Seq<Row>, r: Sighting, between: Seq<Sighting>)
    ensures
        observed(replayed(observed(table, r), between), r) == observed(
            replayed(table, between),
            r,
        ),
    decreases between.len(),
{
    if between.len() == 0 {
        lemma_observed_twice(table, r);
    } else {
        let u = between.drop_last();
        let p = between.last();
        let started = replayed(observed(table, r), u);
        let plain = replayed(table, u);
        lemma_only_the_later_sighting_counts(started, r, p);
        lemma_only_the_later_sighting_counts(plain, r, p);
        lemma_only_the_last_counts(table, r, u);
        assert(observed(started, r) == observed(plain, r));
    }
}

proof fn lemma_observed_twice(table: Seq<Row>, r: Sighting)
    ensures
        observed(observed(table, r), r) == observed(table, r),
{
    lemma_without_twice(table, r.cmd, r.cmd);
    lemma_without_push(without(table, r.cmd), record(r), r.cmd);
    lemma_outdated_push(without(table, r.cmd), record(r), r);
    lemma_outdated_without(table, r, r.cmd);
}

/// Recording a batch a second time changes nothing: not the rows, and not their order.
pub proof fn replaying_twice_is_replaying_once(table: Seq<Row>, sightings: Seq<Sighting>)
    ensures
        replayed(replayed(table, sightings), sightings) == replayed(table, sightings),
    decreases sightings.len(),
{
    if sightings.len() > 0 {
        let u = sightings.drop_last();
        let r = sightings.last();
        let once = replayed(table, u);
        replaying_twice_is_replaying_once(table, u);
        lemma_only_the_last_counts(once, r, u);
        assert(replayed(once, u) == once);
    }
}

// ---------------------------------------------------------------------------------------------
// What a batch records
// ---------------------------------------------------------------------------------------------

/// A batch records no blank command, and records at most what it was given.
pub proof fn a_batch_records_no_blank_command(sightings: Seq<Sighting>)
    ensures
        recorded(sightings).len() <= sightings.len(),
        forall|k: int|
            0 <= k < recorded(sightings).len() ==> #[trigger] recorded(sightings)[k].cmd.len() > 0,
    decreases sightings.len(),
{
    if sightings.len() > 0 {
        a_batch_records_no_blank_command(sightings.drop_last());
        blank_text_trims_to_nothing(sightings.last().cmd);
    }
}

// ---------------------------------------------------------------------------------------------
// Reading back
// ---------------------------------------------------------------------------------------------

/// The order of listing is an order in which no two rows tie.
pub proof fn lemma_listing_is_strict(table: Seq<Row>)
    ensures
        crate::order::strict_order(
            |i: int| 0 <= i < table.len(),
            |i: int, j: int| listed_before(table, i, j),
        ),
{
}

/// The listing holds each row once, newest first.
pub proof fn newest_lists_every_row_once(table: Seq<Row>)
    ensures
        newest_order(table).len() == table.len(),
        forall|k: int|
            0 <= k < newest_order(table).len() ==> 0 <= #[trigger] newest_order(table)[k]
                < table.len(),
        forall|i: int| 0 <= i < table.len() ==> #[trigger] newest_order(table).contains(i),
        forall|a: int, b: int|
            0 <= a < b < newest_order(table).len() ==> listed_before(
                table,
                #[trigger] newest_order(table)[a],
                #[trigger] newest_order(table)[b],
            ),
{
    let member = |i: int| 0 <= i < table.len();
    let before = |i: int, j: int| listed_before(table, i, j);
    lemma_listing_is_strict(table);
    arrangement_exists(table.len(), member, before);
    let order = newest_order(table);
    assert(crate::order::arranged(order, member, before));
    assert forall|k: int| 0 <= k < order.len() implies 0 <= #[trigger] order[k] < table.len() by {
        assert(member(order[k]));
    }
    assert forall|i: int| 0 <= i < table.len() implies #[trigger] order.contains(i) by {
        assert(member(i));
    }
    assert forall|a: int, b: int| 0 <= a < b < order.len() implies listed_before(
        table,
        #[trigger] order[a],
        #[trigger] order[b],
    ) by {
        assert(before(order[a], order[b]));
    }
    arrangement_holds_each_once(order, table.len(), before);
}

/// Asking for more rows only adds older ones after those that a smaller limit gives.
pub proof fn a_larger_limit_only_adds_older_rows(table: Seq<Row>, few: nat, many: nat)
    requires
        few <= many,
    ensures
        newest(table, few).len() <= newest(table, many).len(),
        newest(table, few) == newest(table, many).take(newest(table, few).len() as int),
        newest(table, few).len() == if few < table.len() {
            few
        } else {
            table.len()
        },
{
    newest_lists_every_row_once(table);
    assert(newest(table, few) =~= newest(table, many).take(newest(table, few).len() as int));
}

/// A listing never goes forward in time.
pub proof fn newest_is_newest_first(table: Seq<Row>, limit: nat, a: int, b: int)
    requires
        0 <= a <= b < newest(table, limit).len(),
        newest(table, limit)[b].ts is Some,
    ensures
        newest(table, limit)[a].ts is Some,
        newest(table, limit)[a].ts->0 >= newest(table, limit)[b].ts->0,
{
    newest_lists_every_row_once(table);
    let order = newest_order(table);
    if a < b {
        assert(listed_before(table, order[a], order[b]));
    }
}

/// A sighting that no stored row is newer than is listed first, also before rows of the same
/// second.
pub proof fn the_latest_sighting_is_listed_first(table: Seq<Row>, s: Sighting, limit: nat)
    requires
        limit > 0,
        forall|i: int|
            0 <= i < table.len() && (#[trigger] table[i]).ts is Some ==> table[i].ts->0 <= s.ts,
    ensures
        newest(observed(table, s), limit).len() > 0,
        newest(observed(table, s), limit)[0] == record(s),
{
    assert(!outdated(table, s)) by {
        if outdated(table, s) {
            let i = choose|i: int| 0 <= i < table.len() && newer_row(#[trigger] table[i], s);
            assert(table[i].ts->0 <= s.ts);
        }
    }
    let after = observed(table, s);
    let order = newest_order(after);
    newest_lists_every_row_once(after);
    lemma_without_rows(table, s.cmd);
    let last = after.len() - 1;
    assert(after[last] == record(s));
    if order[0] != last {
        assert(order.contains(last));
        let k = choose|k: int| 0 <= k < order.len() && order[k] == last;
        assert(listed_before(after, order[0], order[k]));
        let row = after[order[0]];
        assert(row == without(table, s.cmd)[order[0]]);
        assert(table.contains(row));
        let i = choose|i: int| 0 <= i < table.len() && table[i] == row;
        assert(table[i].ts is Some ==> table[i].ts->0 <= s.ts);
    }
}

/// The newest rows can be listed with the rest of the table out of sight: whatever holds exactly
/// those rows, in order of arrival, lists them the same.
pub proof fn the_newest_rows_are_listed_without_the_rest(
    table: Seq<Row>,
    limit: nat,
    positions: Seq<int>,
)
    requires
        forall|k: int| 0 <= k < positions.len() ==> 0 <= #[trigger] positions[k] < table.len(),
        forall|a: int, b: int|
            0 <= a < b < positions.len() ==> #[trigger] positions[a] < #[trigger] positions[b],
        positions.to_set() == newest_order(table).take(
            newest(table, limit).len() as int,
        ).to_set(),
    ensures
        newest(positions.map_values(|i: int| table[i]), limit) == newest(table, limit),
{
    let part = positions.map_values(|i: int| table[i]);
    let count = newest(table, limit).len() as int;
    let order = newest_order(table);
    let head = order.take(count);
    newest_lists_every_row_once(table);
    let place = Seq::new(count as nat, |k: int| positions.index_of(order[k]));
    assert forall|k: int| 0 <= k < count implies 0 <= #[trigger] place[k] < positions.len()
        && positions[place[k]] == order[k] by {
        assert(head[k] == order[k]);
        assert(head.contains(order[k]));
        assert(head.to_set().contains(order[k]));
        assert(positions.to_set().contains(order[k]));
        assert(positions.contains(order[k]));
    }
    assert forall|i: int| 0 <= i < part.len() implies #[trigger] place.contains(i) by {
        assert(positions.to_set().contains(positions[i]));
        assert(head.to_set().contains(positions[i]));
        assert(head.contains(positions[i]));
        let k = choose|k: int| 0 <= k < head.len() && head[k] == positions[i];
        assert(order[k] == positions[i]);
        assert(positions[place[k]] == positions[i]);
        if place[k] < i {
            assert(positions[place[k]] < positions[i]);
        }
        if i < place[k] {
            assert(positions[i] < positions[place[k]]);
        }
    }
    assert forall|a: int, b: int| 0 <= a < b < place.len() implies listed_before(
        part,
        #[trigger] place[a],
        #[trigger] place[b],
    ) by {
        assert(listed_before(table, order[a], order[b]));
        if place[a] < place[b] {
            assert(positions[place[a]] < positions[place[b]]);
        }
        if place[b] < place[a] {
            assert(positions[place[b]] < positions[place[a]]);
        }
    }
    lemma_listing_is_unique(part, place);
    newest_lists_every_row_once(part);
    assert(newest(part, limit) =~= newest(table, limit));
}

/// Sightings of different commands recorded oldest first into an empty table are listed in the
/// opposite order, also those of the same second.
pub proof fn a_batch_recorded_in_order_is_listed_backwards(sightings: Seq<Sighting>)
    requires
        forall|i: int, j: int|
            0 <= i < j < sightings.len() ==> (#[trigger] sightings[i]).cmd != (
            #[trigger] sightings[j]).cmd && sightings[i].ts <= sightings[j].ts,
    ensures
        newest(replayed(Seq::empty(), sightings), sightings.len()) == Seq::new(
            sightings.len(),
            |k: int| record(sightings[sightings.len() - 1 - k]),
        ),
{
    let n = sightings.len() as int;
    let table = replayed(Seq::empty(), sightings);
    lemma_replayed_distinct(sightings);
    let order = Seq::new(n as nat, |k: int| n - 1 - k);
    assert forall|i: int| 0 <= i < table.len() implies #[trigger] order.contains(i) by {
        assert(order[n - 1 - i] == i);
    }
    assert forall|a: int, b: int| 0 <= a < b < order.len() implies listed_before(
        table,
        #[trigger] order[a],
        #[trigger] order[b],
    ) by {
        assert(sightings[order[b]].ts <= sightings[order[a]].ts);
    }
    lemma_listing_is_unique(table, order);
    assert(newest(table, n as nat) =~= Seq::new(
        n as nat,
        |k: int| record(sightings[sightings.len() - 1 - k]),
    ));
}

proof fn lemma_replayed_distinct(sightings: Seq<Sighting>)
    requires
        forall|i: int, j: int|
            0 <= i < j < sightings.len() ==> (#[trigger] sightings[i]).cmd != (
            #[trigger] sightings[j]).cmd,
    ensures
        replayed(Seq::empty(), sightings) == sightings.map_values(|s: Sighting| record(s)),
    decreases sightings.len(),
{
    if sightings.len() > 0 {
        let earlier = sightings.drop_last();
        let s = sightings.last();
        assert forall|i: int, j: int| 0 <= i < j < earlier.len() implies (
        #[trigger] earlier[i]).cmd != (#[trigger] earlier[j]).cmd by {
            assert(sightings[i].cmd != sightings[j].cmd);
        }
        lemma_replayed_distinct(earlier);
        let table = replayed(Seq::empty(), earlier);
        assert forall|i: int| 0 <= i < table.len() implies #[trigger] table[i].cmd != s.cmd by {
            assert(sightings[i].cmd != sightings[sightings.len() - 1].cmd);
        }
        lemma_without_absent(table, s.cmd);
        assert(!outdated(table, s));
    }
    assert(replayed(Seq::empty(), sightings) =~= sightings.map_values(|s: Sighting| record(s)));
}

/// Whatever lists the rows newest first is the listing.
pub proof fn lemma_listing_is_unique(table: Seq<Row>, order: Seq<int>)
    requires
        forall|k: int| 0 <= k < order.len() ==> 0 <= #[trigger] order[k] < table.len(),
        forall|i: int| 0 <= i < table.len() ==> #[trigger] order.contains(i),
        forall|a: int, b: int|
            0 <= a < b < order.len() ==> listed_before(
                table,
                #[trigger] order[a],
                #[trigger] order[b],
            ),
    ensures
        order == newest_order(table),
{
    let member = |i: int| 0 <= i < table.len();
    let before = |i: int, j: int| listed_before(table, i, j);
    lemma_listing_is_strict(table);
    assert(crate::order::arranged(order, member, before));
    arrangement_is_unique(order, member, before);
}

// ---------------------------------------------------------------------------------------------
// Field by field
// ---------------------------------------------------------------------------------------------

/// Recording stores the sighting whole: the command, where it ran, how it ended, when, and in which
/// session, whatever the command is. It takes the place of what was stored for the command, as the
/// last row, and the other rows keep their order. Only a row of the same command with a later time
/// stands in the way, and then nothing changes.
pub proof fn recording_stores_every_field(table: Seq<Row>, s: Sighting)
    ensures
        (exists|i: int|
            0 <= i < table.len() && (#[trigger] table[i]).cmd == s.cmd && table[i].ts is Some
                && table[i].ts->0 > s.ts) ==> observed(table, s) == table,
        (forall|i: int|
            0 <= i < table.len() && (#[trigger] table[i]).cmd == s.cmd && table[i].ts is Some
                ==> table[i].ts->0 <= s.ts) ==> {
            let after = observed(table, s);
            &&& after.len() > 0
            &&& after.drop_last() == table.filter(|row: Row| row.cmd != s.cmd)
            &&& after.last().cmd == s.cmd
            &&& after.last().cwd == s.cwd
            &&& after.last().exit == s.exit
            &&& after.last().ts == Some(s.ts)
            &&& after.last().session == s.session
        },
{
    if exists|i: int|
        0 <= i < table.len() && (#[trigger] table[i]).cmd == s.cmd && table[i].ts is Some
            && table[i].ts->0 > s.ts {
        let i = choose|i: int|
            0 <= i < table.len() && (#[trigger] table[i]).cmd == s.cmd && table[i].ts is Some
                && table[i].ts->0 > s.ts;
        an_older_sighting_changes_nothing(table, s, i);
    }
    if forall|i: int|
        0 <= i < table.len() && (#[trigger] table[i]).cmd == s.cmd && table[i].ts is Some
            ==> table[i].ts->0 <= s.ts {
        assert(!outdated(table, s)) by {
            if outdated(table, s) {
                let i = choose|i: int| 0 <= i < table.len() && newer_row(#[trigger] table[i], s);
                assert(table[i].ts->0 <= s.ts);
            }
        }
        assert(observed(table, s).drop_last() =~= table.filter(|row: Row| row.cmd != s.cmd));
    }
}

/// No two rows of a table with one row per command hold the same command.
pub proof fn one_row_per_command_means_different_commands(table: Seq<Row>)
    ensures
        distinct(table) <==> forall|i: int, j: int|
            0 <= i < table.len() && 0 <= j < table.len() && i != j ==> (#[trigger] table[i]).cmd
                != (#[trigger] table[j]).cmd,
{
    if distinct(table) {
        assert forall|i: int, j: int|
            0 <= i < table.len() && 0 <= j < table.len() && i != j implies (
        #[trigger] table[i]).cmd != (#[trigger] table[j]).cmd by {
            if j < i {
                assert(table[j].cmd != table[i].cmd);
            }
        }
    }
}

/// A batch is recorded one sighting after the other, in the order given.
pub proof fn a_batch_is_recorded_one_by_one(
    table: Seq<Row>,
    first: Seq<Sighting>,
    second: Seq<Sighting>,
    s: Sighting,
)
    ensures
        replayed(table, Seq::empty()) == table,
        replayed(table, seq![s]) == observed(table, s),
        replayed(table, first + second) == replayed(replayed(table, first), second),
    decreases second.len(),
{
    assert(seq![s].drop_last() =~= Seq::empty());
    assert(replayed(table, seq![s].drop_last()) == table);
    if second.len() == 0 {
        assert(first + second =~= first);
    } else {
        assert((first + second).drop_last() =~= first + second.drop_last());
        a_batch_is_recorded_one_by_one(table, first, second.drop_last(), s);
    }
}

/// A batch drops blank commands and records the others without the blanks around them, each with
/// its own directory, exit status, time, and session, in the order given.
pub proof fn a_batch_records_every_field(
    first: Seq<Sighting>,
    second: Seq<Sighting>,
    s: Sighting,
)
    ensures
        recorded(first + second) == recorded(first) + recorded(second),
        crate::text::blank(s.cmd) ==> recorded(seq![s]).len() == 0,
        !crate::text::blank(s.cmd) ==> {
            let out = recorded(seq![s]);
            &&& out.len() == 1
            &&& out[0].cmd == crate::text::trimmed(s.cmd)
            &&& out[0].cwd == s.cwd
            &&& out[0].exit == s.exit
            &&& out[0].ts == s.ts
            &&& out[0].session == s.session
        },
    decreases second.len(),
{
    assert(seq![s].drop_last() =~= Seq::empty());
    assert(recorded(seq![s].drop_last()) == Seq::<Sighting>::empty());
    if second.len() == 0 {
        assert(first + second =~= first);
        assert(recorded(first) + recorded(second) =~= recorded(first));
    } else {
        assert((first + second).drop_last() =~= first + second.drop_last());
        a_batch_records_every_field(first, second.drop_last(), s);
        assert(recorded(first + second) =~= recorded(first) + recorded(second));
    }
}

/// The listing goes by time and arrival alone. Of any two rows in it the first has the later time,
/// or the same and arrived later; a row without a time comes after all that have one. It is as long
/// as asked for, or holds every row.
pub proof fn the_listing_goes_by_time_and_arrival(table: Seq<Row>, limit: nat)
    ensures
        ({
            let order = newest_order(table);
            &&& order.len() == table.len()
            &&& forall|k: int| 0 <= k < order.len() ==> 0 <= #[trigger] order[k] < table.len()
            &&& forall|a: int, b: int|
                0 <= a < b < order.len() ==> {
                    let i = #[trigger] order[a];
                    let j = #[trigger] order[b];
                    ||| table[i].ts is Some && table[j].ts is None
                    ||| table[i].ts is Some && table[j].ts is Some && table[i].ts->0
                        > table[j].ts->0
                    ||| table[i].ts == table[j].ts && i > j
                }
            &&& newest(table, limit).len() == if limit <= table.len() {
                limit
            } else {
                table.len()
            }
            &&& forall|k: int|
                0 <= k < newest(table, limit).len() ==> #[trigger] newest(table, limit)[k]
                    == table[order[k]]
        }),
{
    newest_lists_every_row_once(table);
    let order = newest_order(table);
    assert forall|a: int, b: int| 0 <= a < b < order.len() implies {
        let i = #[trigger] order[a];
        let j = #[trigger] order[b];
        ||| table[i].ts is Some && table[j].ts is None
        ||| table[i].ts is Some && table[j].ts is Some && table[i].ts->0 > table[j].ts->0
        ||| table[i].ts == table[j].ts && i > j
    } by {
        assert(listed_before(table, order[a], order[b]));
    }
}

/// Writing a row puts it last and takes the other rows of its command away.
pub proof fn writing_replaces_the_row_of_a_command(table: Seq<Row>, rows: Seq<Row>, row: Row)
    ensures
        written(table, Seq::empty()) == table,
        written(table, rows.push(row)) == written(table, rows).filter(
            |r: Row| r.cmd != row.cmd,
        ).push(row),
{
    assert(rows.push(row).drop_last() =~= rows);
}

/// A refreshed row is the whole record of a sighting of the batch, and no command has two.
pub proof fn only_what_a_batch_saw_is_refreshed(table: Seq<Row>, sightings: Seq<Sighting>)
    ensures
        distinct(all_refreshed(table, Seq::empty(), sightings)),
        forall|i: int|
            0 <= i < all_refreshed(table, Seq::empty(), sightings).len() ==> {
                let row = #[trigger] all_refreshed(table, Seq::empty(), sightings)[i];
                exists|k: int|
                    0 <= k < sightings.len() && row.cmd == (#[trigger] sightings[k]).cmd && row.cwd
                        == sightings[k].cwd && row.exit == sightings[k].exit && row.ts == Some(
                        sightings[k].ts,
                    ) && row.session == sightings[k].session
            },
    decreases sightings.len(),
{
    if sightings.len() > 0 {
        let earlier = sightings.drop_last();
        let s = sightings.last();
        let before = all_refreshed(table, Seq::empty(), earlier);
        let after = all_refreshed(table, Seq::empty(), sightings);
        only_what_a_batch_saw_is_refreshed(table, earlier);
        lemma_without_distinct(before, s.cmd);
        lemma_without_rows(before, s.cmd);
        assert forall|i: int| 0 <= i < after.len() implies {
            let row = #[trigger] after[i];
            exists|k: int|
                0 <= k < sightings.len() && row.cmd == (#[trigger] sightings[k]).cmd && row.cwd
                    == sightings[k].cwd && row.exit == sightings[k].exit && row.ts == Some(
                    sightings[k].ts,
                ) && row.session == sightings[k].session
        } by {
            let row = after[i];
            if before.contains(row) {
                let m = choose|m: int| 0 <= m < before.len() && before[m] == row;
                let k = choose|k: int|
                    0 <= k < earlier.len() && row.cmd == (#[trigger] earlier[k]).cmd && row.cwd
                        == earlier[k].cwd && row.exit == earlier[k].exit && row.ts == Some(
                        earlier[k].ts,
                    ) && row.session == earlier[k].session;
                assert(sightings[k] == earlier[k]);
            } else {
                assert(row == record(s));
                assert(sightings[sightings.len() - 1] == s);
            }
        }
    }
}

/// A sighting is outdated when its command is stored with a later time, and for no other reason.
pub proof fn only_a_later_time_makes_a_sighting_outdated(table: Seq<Row>, s: Sighting)
    ensures
        outdated(table, s) <==> exists|i: int|
            0 <= i < table.len() && (#[trigger] table[i]).cmd == s.cmd && table[i].ts is Some
                && table[i].ts->0 > s.ts,
{
    if outdated(table, s) {
        let i = choose|i: int| 0 <= i < table.len() && newer_row(#[trigger] table[i], s);
        assert(table[i].cmd == s.cmd);
    }
    if exists|i: int|
        0 <= i < table.len() && (#[trigger] table[i]).cmd == s.cmd && table[i].ts is Some
            && table[i].ts->0 > s.ts {
        let i = choose|i: int|
            0 <= i < table.len() && (#[trigger] table[i]).cmd == s.cmd && table[i].ts is Some
                && table[i].ts->0 > s.ts;
        assert(newer_row(table[i], s));
    }
}

/// The refreshed rows grow with the table: an outdated sighting adds none, and any other adds its
/// whole record in place of the one its command had among them.
pub proof fn recording_refreshes_one_row(
    table: Seq<Row>,
    fresh: Seq<Row>,
    sightings: Seq<Sighting>,
    s: Sighting,
)
    ensures
        all_refreshed(table, fresh, Seq::empty()) == fresh,
        all_refreshed(table, fresh, sightings.push(s)) == refreshed(
            replayed(table, sightings),
            all_refreshed(table, fresh, sightings),
            s,
        ),
        outdated(table, s) ==> refreshed(table, fresh, s) == fresh,
        !outdated(table, s) ==> {
            let after = refreshed(table, fresh, s);
            &&& after.len() > 0
            &&& after.drop_last() == fresh.filter(|row: Row| row.cmd != s.cmd)
            &&& after.last().cmd == s.cmd
            &&& after.last().cwd == s.cwd
            &&& after.last().exit == s.exit
            &&& after.last().ts == Some(s.ts)
            &&& after.last().session == s.session
        },
{
    assert(sightings.push(s).drop_last() =~= sightings);
    assert(!outdated(table, s) ==> refreshed(table, fresh, s).drop_last() =~= fresh.filter(
        |row: Row| row.cmd != s.cmd,
    ));
}

} // verus!
