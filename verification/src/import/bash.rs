//! Bash history.
//!
//! Timestamp lines delimit multiline entries:
//! https://www.gnu.org/software/bash/manual/html_node/Bash-History-Facilities.html

use vstd::prelude::*;

use crate::db::{sightings, Observation};
use crate::import::entry::{
    imported, leading, lemma_imported_push, lemma_leading, lemma_leading_bound, push_observation,
    Entry,
};
use crate::text::{
    all_digits, chars_of, decimal, decimal_reads_back, digits, ended, is_digit, join_slices, joined,
    lines, one_line, parse_integer, slices, split_lines, string_of, strip_prefix, value,
    whole_lines_read_back, without_prefix,
};

verus! {

/// The time in a `#<seconds>` line.
pub open spec fn stamp(line: Seq<char>) -> Option<i64> {
    match without_prefix(line, "#"@) {
        Some(rest) => if digits(rest) && value(rest) <= i64::MAX {
            Some(value(rest) as i64)
        } else {
            None
        },
        None => None,
    }
}

/// Whether a line belongs to the entry before it once timestamps have begun.
pub open spec fn unstamped() -> spec_fn(Seq<char>) -> bool {
    |line: Seq<char>| stamp(line) is None
}

/// The entries that timestamp lines open: each runs to the next timestamp line.
pub open spec fn stamped_entries(lines: Seq<Seq<char>>) -> Seq<Entry>
    decreases lines.len(),
{
    if lines.len() == 0 {
        Seq::empty()
    } else {
        let body = leading(lines.drop_first(), unstamped());
        proof {
            lemma_leading_bound(lines.drop_first(), unstamped());
        }
        let entry = Entry {
            cmd: joined(lines.subrange(1, 1 + body), "\n"@),
            ts: stamp(lines[0])->0,
        };
        seq![entry] + stamped_entries(lines.skip(1 + body))
    }
}

/// The entries of a Bash history. Before the first timestamp line every line stands alone; a file
/// can start with untimed entries and pick up timestamps part way through.
pub open spec fn bash_entries(lines: Seq<Seq<char>>, fallback_ts: i64) -> Seq<Entry> {
    let alone = leading(lines, unstamped());
    Seq::new(alone as nat, |k: int| Entry { cmd: lines[k], ts: fallback_ts }) + stamped_entries(
        lines.skip(alone),
    )
}

/// A bash `#<seconds>` line. Digits only, so a comment someone typed at the prompt stays a
/// command.
pub fn timestamp_comment(line: &[char]) -> (ts: Option<i64>)
    ensures
        ts == stamp(line@),
{
    match strip_prefix(line, "#") {
        Some(rest) => {
            if !all_digits(rest) {
                return None;
            }
            proof {
                assert(is_digit(rest@[0]));
            }
            parse_integer(rest)
        },
        None => None,
    }
}

/// Parse Bash history. Cannot fail: any line is a valid command, so an unrecognized file imports
/// as one command per line.
///
/// With HISTTIMEFORMAT set, bash writes a `#<seconds>` line before each entry, and those lines are
/// the only delimiter a multiline command has. Without it there is no timestamp at all and
/// everything gets `fallback_ts`.
pub fn parse_bash(text: &str, fallback_ts: i64) -> (rows: Vec<Observation>)
    ensures
        sightings(rows@) == imported(bash_entries(lines(text@), fallback_ts)),
{
    let chars = chars_of(text);
    let parts = split_lines(chars.as_slice());
    let ghost all = lines(text@);
    let mut out: Vec<Observation> = Vec::new();
    let mut i: usize = 0;
    let ghost mut entries: Seq<Entry> = Seq::empty();
    assert(sightings(out@) =~= imported(entries));
    while i < parts.len() && timestamp_comment(parts[i]).is_none()
        invariant
            i <= parts@.len(),
            all == slices(parts@),
            forall|k: int| 0 <= k < i ==> stamp(#[trigger] all[k]) is None,
            entries == Seq::new(i as nat, |k: int| Entry { cmd: all[k], ts: fallback_ts }),
            sightings(out@) == imported(entries),
        decreases parts@.len() - i,
    {
        push_observation(&mut out, string_of(parts[i]), fallback_ts);
        proof {
            let entry = Entry { cmd: all[i as int], ts: fallback_ts };
            lemma_imported_push(entries, entry);
            entries = entries.push(entry);
            assert(entries =~= Seq::new(
                (i + 1) as nat,
                |k: int| Entry { cmd: all[k], ts: fallback_ts },
            ));
        }
        i += 1;
    }
    proof {
        lemma_leading(all, unstamped(), i as int);
        assert(entries + stamped_entries(all.skip(i as int)) =~= bash_entries(all, fallback_ts));
    }
    while i < parts.len()
        invariant
            i <= parts@.len(),
            all == slices(parts@),
            i < parts@.len() ==> stamp(all[i as int]) is Some,
            entries + stamped_entries(all.skip(i as int)) == bash_entries(all, fallback_ts),
            sightings(out@) == imported(entries),
        decreases parts@.len() - i,
    {
        let ghost rest = all.skip(i as int);
        if let Some(ts) = timestamp_comment(parts[i]) {
            let mut j: usize = i + 1;
            while j < parts.len() && timestamp_comment(parts[j]).is_none()
                invariant
                    i < j <= parts@.len(),
                    all == slices(parts@),
                    rest == all.skip(i as int),
                    forall|k: int| i < k < j ==> stamp(#[trigger] all[k]) is None,
                decreases parts@.len() - j,
            {
                j += 1;
            }
            push_observation(&mut out, join_slices(&parts, i + 1, j, "\n"), ts);
            proof {
                let body = j - i - 1;
                assert forall|k: int| 0 <= k < body implies stamp(
                    #[trigger] rest.drop_first()[k],
                ) is None by {
                    assert(rest.drop_first()[k] == all[i + 1 + k]);
                }
                lemma_leading(rest.drop_first(), unstamped(), body);
                assert(rest.subrange(1, 1 + body) =~= all.subrange(i + 1, j as int));
                assert(rest.skip(1 + body) =~= all.skip(j as int));
                let entry = Entry { cmd: joined(all.subrange(i + 1, j as int), "\n"@), ts };
                lemma_imported_push(entries, entry);
                assert(entries.push(entry) + stamped_entries(all.skip(j as int)) =~= entries + (
                seq![entry] + stamped_entries(all.skip(j as int))));
                entries = entries.push(entry);
            }
            i = j;
        }
    }
    assert(entries + stamped_entries(all.skip(i as int)) =~= entries);
    out
}

// ---------------------------------------------------------------------------------------------
// What the format keeps
// ---------------------------------------------------------------------------------------------

/// A file with no timestamp line imports as one command per line, each with the fallback time.
pub proof fn an_unstamped_history_is_one_command_per_line(lines: Seq<Seq<char>>, fallback_ts: i64)
    requires
        forall|i: int| 0 <= i < lines.len() ==> stamp(#[trigger] lines[i]) is None,
    ensures
        bash_entries(lines, fallback_ts) == lines.map_values(
            |line: Seq<char>| Entry { cmd: line, ts: fallback_ts },
        ),
{
    lemma_leading(lines, unstamped(), lines.len() as int);
    assert(stamped_entries(lines.skip(lines.len() as int)) =~= Seq::empty());
    assert(bash_entries(lines, fallback_ts) =~= lines.map_values(
        |line: Seq<char>| Entry { cmd: line, ts: fallback_ts },
    ));
}

/// A command with its time, as the lines it takes in a history file.
pub struct Stamped {
    pub ts: i64,
    pub body: Seq<Seq<char>>,
}

/// The timestamp line that bash writes.
pub open spec fn stamp_line(ts: i64) -> Seq<char> {
    "#"@ + decimal(ts as nat)
}

/// The lines that bash writes for its entries: a timestamp line before each.
pub open spec fn written(entries: Seq<Stamped>) -> Seq<Seq<char>>
    decreases entries.len(),
{
    if entries.len() == 0 {
        Seq::empty()
    } else {
        seq![stamp_line(entries[0].ts)] + entries[0].body + written(entries.drop_first())
    }
}

/// Whether entries survive being written: times are not negative, every line is one as it stands,
/// and no line of a command looks like a timestamp.
pub open spec fn writable(entries: Seq<Stamped>) -> bool {
    forall|i: int|
        0 <= i < entries.len() ==> (#[trigger] entries[i]).ts >= 0 && forall|k: int|
            0 <= k < entries[i].body.len() ==> one_line(#[trigger] entries[i].body[k]) && stamp(
                entries[i].body[k],
            ) is None
}

proof fn lemma_stamp_line(ts: i64)
    requires
        ts >= 0,
    ensures
        one_line(stamp_line(ts)),
        stamp(stamp_line(ts)) == Some(ts),
{
    reveal_strlit("#");
    let line = stamp_line(ts);
    let d = decimal(ts as nat);
    decimal_reads_back(ts as nat);
    assert(line.subrange(0, 1) =~= "#"@);
    assert(line.skip(1) =~= d);
    assert forall|k: int| 0 <= k < line.len() implies #[trigger] line[k] != '\n' by {
        if k > 0 {
            assert(line[k] == d[k - 1]);
            assert(is_digit(d[k - 1]));
        }
    }
    assert(is_digit(d[d.len() - 1]));
    assert(line.last() == d[d.len() - 1]);
}

proof fn lemma_written(entries: Seq<Stamped>)
    requires
        writable(entries),
    ensures
        forall|i: int| 0 <= i < written(entries).len() ==> one_line(#[trigger] written(entries)[i]),
        entries.len() > 0 ==> written(entries).len() > 0 && stamp(written(entries)[0]) is Some,
        stamped_entries(written(entries)) == entries.map_values(
            |entry: Stamped| Entry { cmd: joined(entry.body, "\n"@), ts: entry.ts },
        ),
    decreases entries.len(),
{
    let all = written(entries);
    let expected = entries.map_values(
        |entry: Stamped| Entry { cmd: joined(entry.body, "\n"@), ts: entry.ts },
    );
    if entries.len() == 0 {
        assert(stamped_entries(all) =~= expected);
    } else {
        let first = entries[0];
        let others = entries.drop_first();
        assert(writable(others)) by {
            assert forall|i: int| 0 <= i < others.len() implies (#[trigger] others[i]).ts >= 0
                && forall|k: int|
                0 <= k < others[i].body.len() ==> one_line(#[trigger] others[i].body[k]) && stamp(
                    others[i].body[k],
                ) is None by {
                assert(others[i] == entries[i + 1]);
            }
        }
        lemma_written(others);
        lemma_stamp_line(first.ts);
        let n = first.body.len() as int;
        let rest = written(others);
        assert forall|i: int| 0 <= i < all.len() implies one_line(#[trigger] all[i]) by {
            if i == 0 {
                assert(all[0] == stamp_line(first.ts));
            } else if i <= n {
                assert(all[i] == first.body[i - 1]);
            } else {
                assert(all[i] == rest[i - 1 - n]);
            }
        }
        let after = all.drop_first();
        assert(after =~= first.body + rest);
        assert forall|k: int| 0 <= k < n implies unstamped()(#[trigger] after[k]) by {
            assert(after[k] == first.body[k]);
        }
        if others.len() > 0 {
            assert(after[n] == rest[0]);
        }
        lemma_leading(after, unstamped(), n);
        assert(all.subrange(1, 1 + n) =~= first.body);
        assert(all.skip(1 + n) =~= rest);
        assert(all[0] == stamp_line(first.ts));
        assert(stamped_entries(all) =~= expected);
    }
}

/// A history file that bash wrote with timestamps imports as the commands and times it was written
/// with, multiline commands whole.
pub proof fn a_written_history_reads_back(entries: Seq<Stamped>, fallback_ts: i64)
    requires
        writable(entries),
    ensures
        bash_entries(lines(ended(written(entries))), fallback_ts) == entries.map_values(
            |entry: Stamped| Entry { cmd: joined(entry.body, "\n"@), ts: entry.ts },
        ),
{
    lemma_written(entries);
    whole_lines_read_back(written(entries));
    let all = written(entries);
    lemma_leading(all, unstamped(), 0);
    assert(all.skip(0) =~= all);
    assert(bash_entries(all, fallback_ts) =~= stamped_entries(all));
}

// ---------------------------------------------------------------------------------------------
// Line by line
// ---------------------------------------------------------------------------------------------

/// A timestamp line is a hash and digits, and its time is what the digits denote. No other line is
/// one, and neither is a number that does not fit.
pub proof fn a_timestamp_line_is_a_hash_and_digits(line: Seq<char>, ts: i64)
    ensures
        stamp(line) == Some(ts) <==> line.len() > 0 && line[0] == '#' && digits(line.skip(1))
            && value(line.skip(1)) == ts,
{
    reveal_strlit("#");
    if line.len() > 0 && line[0] == '#' {
        assert(line.subrange(0, 1) =~= "#"@);
    }
    if without_prefix(line, "#"@) is Some {
        assert(line.subrange(0, 1)[0] == line[0]);
    }
}

/// Before the first timestamp line every line is a command of its own with the fallback time. From
/// then on a timestamp line opens an entry with its time, and the lines up to the next one are its
/// command.
pub proof fn a_bash_history_goes_line_by_line(lines: Seq<Seq<char>>, fallback_ts: i64, n: int)
    requires
        lines.len() > 0,
    ensures
        bash_entries(Seq::empty(), fallback_ts) == Seq::<Entry>::empty(),
        stamp(lines[0]) is None ==> bash_entries(lines, fallback_ts) == seq![
            Entry { cmd: lines[0], ts: fallback_ts },
        ] + bash_entries(lines.drop_first(), fallback_ts),
        stamp(lines[0]) is Some && 1 <= n <= lines.len() && (forall|k: int|
            1 <= k < n ==> stamp(#[trigger] lines[k]) is None) && (n < lines.len() ==> stamp(
            lines[n],
        ) is Some) ==> bash_entries(lines, fallback_ts) == seq![
            Entry { cmd: joined(lines.subrange(1, n), "\n"@), ts: stamp(lines[0])->0 },
        ] + bash_entries(lines.skip(n), fallback_ts),
{
    let none = Seq::<Seq<char>>::empty();
    assert(none.skip(0) =~= none);
    assert(bash_entries(none, fallback_ts) =~= Seq::empty());
    let rest = lines.drop_first();
    if stamp(lines[0]) is None {
        let alone = leading(rest, unstamped());
        lemma_leading_bound(rest, unstamped());
        assert(unstamped()(lines[0]));
        assert(lines.skip(1 + alone) =~= rest.skip(alone));
        assert(bash_entries(lines, fallback_ts) =~= seq![
            Entry { cmd: lines[0], ts: fallback_ts },
        ] + bash_entries(rest, fallback_ts));
    } else if 1 <= n <= lines.len() && (forall|k: int|
        1 <= k < n ==> stamp(#[trigger] lines[k]) is None) && (n < lines.len() ==> stamp(
        lines[n],
    ) is Some) {
        assert forall|k: int| 0 <= k < n - 1 implies unstamped()(#[trigger] rest[k]) by {
            assert(rest[k] == lines[k + 1]);
        }
        if n < lines.len() {
            assert(rest[n - 1] == lines[n]);
        }
        lemma_leading(rest, unstamped(), n - 1);
        lemma_leading(lines, unstamped(), 0);
        assert(lines.skip(0) =~= lines);
        let after = lines.skip(n);
        lemma_leading(after, unstamped(), 0);
        assert(after.skip(0) =~= after);
        assert(bash_entries(after, fallback_ts) =~= stamped_entries(after));
        assert(bash_entries(lines, fallback_ts) =~= stamped_entries(lines));
    }
}

/// Commands that are not blank come back from a history file that bash wrote one for one, each with
/// its own time.
pub proof fn a_written_history_keeps_commands_and_times(entries: Seq<Stamped>, fallback_ts: i64)
    requires
        writable(entries),
        forall|k: int|
            0 <= k < entries.len() ==> !crate::text::blank(
                joined((#[trigger] entries[k]).body, "\n"@),
            ),
    ensures
        ({
            let history = imported(bash_entries(lines(ended(written(entries))), fallback_ts));
            &&& history.len() == entries.len()
            &&& forall|k: int|
                0 <= k < entries.len() ==> (#[trigger] history[k]).ts == entries[k].ts
                    && history[k].cmd == joined(entries[k].body, "\n"@)
        }),
{
    a_written_history_reads_back(entries, fallback_ts);
    let read = bash_entries(lines(ended(written(entries))), fallback_ts);
    assert forall|k: int| 0 <= k < read.len() implies !crate::text::blank(
        (#[trigger] read[k]).cmd,
    ) by {
        assert(!crate::text::blank(joined(entries[k].body, "\n"@)));
    }
    crate::import::entry::entries_are_imported_one_for_one(read);
}

} // verus!
