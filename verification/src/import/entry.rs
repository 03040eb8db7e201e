//! What every history parser produces: commands with a time, and nothing else.

use vstd::prelude::*;

use crate::db::{sightings, Observation};
use crate::table::Sighting;
use crate::text::{blank, chars_of, decimal, decimal_string, is_blank};

verus! {

/// A command as a history file holds it, with the time it ran in unix seconds.
#[verifier::ext_equal]
pub struct Entry {
    pub cmd: Seq<char>,
    pub ts: i64,
}

/// A sighting of a command of which only the text and the time are known.
pub open spec fn plain(entry: Entry) -> Sighting {
    Sighting { cmd: entry.cmd, cwd: None, exit: None, ts: entry.ts, session: None }
}

/// The sightings that entries give. Blank commands are dropped; the others keep their text.
pub open spec fn imported(entries: Seq<Entry>) -> Seq<Sighting>
    decreases entries.len(),
{
    if entries.len() == 0 {
        Seq::empty()
    } else {
        let earlier = imported(entries.drop_last());
        if blank(entries.last().cmd) {
            earlier
        } else {
            earlier.push(plain(entries.last()))
        }
    }
}

/// One more entry gives one more sighting, unless its command is blank.
pub proof fn lemma_imported_push(entries: Seq<Entry>, entry: Entry)
    ensures
        imported(entries.push(entry)) == if blank(entry.cmd) {
            imported(entries)
        } else {
            imported(entries).push(plain(entry))
        },
{
    assert(entries.push(entry).drop_last() =~= entries);
}

/// Imported history holds no blank command, and no cwd, exit status, or session; those fill in
/// once the command runs again.
pub proof fn imported_history_is_bare(entries: Seq<Entry>)
    ensures
        imported(entries).len() <= entries.len(),
        forall|k: int|
            0 <= k < imported(entries).len() ==> {
                let s = #[trigger] imported(entries)[k];
                !blank(s.cmd) && s.cwd is None && s.exit is None && s.session is None
            },
    decreases entries.len(),
{
    if entries.len() > 0 {
        imported_history_is_bare(entries.drop_last());
    }
}

/// Append a command, dropping blanks. Imported history carries no cwd, exit status, or session;
/// those columns fill in once the command runs again.
pub fn push_observation(out: &mut Vec<Observation>, cmd: String, ts: i64)
    ensures
        sightings(final(out)@) == if blank(cmd@) {
            sightings(old(out)@)
        } else {
            sightings(old(out)@).push(plain(Entry { cmd: cmd@, ts }))
        },
{
    let chars = chars_of(cmd.as_str());
    if !is_blank(chars.as_slice()) {
        let ghost before = out@;
        let row = Observation { cmd, cwd: None, exit: None, ts, session: None };
        out.push(row);
        proof {
            assert(row@ =~= plain(Entry { cmd: cmd@, ts }));
            assert(sightings(out@) =~= sightings(before).push(row@));
        }
    }
}

// ---------------------------------------------------------------------------------------------
// Runs of lines
// ---------------------------------------------------------------------------------------------

/// How many lines at the start have a property.
pub open spec fn leading(lines: Seq<Seq<char>>, property: spec_fn(Seq<char>) -> bool) -> int
    decreases lines.len(),
{
    if lines.len() == 0 || !property(lines[0]) {
        0
    } else {
        1 + leading(lines.drop_first(), property)
    }
}

/// There are no more lines at the start than lines.
pub proof fn lemma_leading_bound(lines: Seq<Seq<char>>, property: spec_fn(Seq<char>) -> bool)
    ensures
        0 <= leading(lines, property) <= lines.len(),
    decreases lines.len(),
{
    if lines.len() > 0 {
        lemma_leading_bound(lines.drop_first(), property);
    }
}

/// The lines at the start end where the property does.
pub proof fn lemma_leading(lines: Seq<Seq<char>>, property: spec_fn(Seq<char>) -> bool, n: int)
    requires
        0 <= n <= lines.len(),
        forall|k: int| 0 <= k < n ==> property(#[trigger] lines[k]),
        n < lines.len() ==> !property(lines[n]),
    ensures
        leading(lines, property) == n,
    decreases n,
{
    if n > 0 {
        assert(property(lines[0]));
        lemma_leading(lines.drop_first(), property, n - 1);
    }
}

// ---------------------------------------------------------------------------------------------
// Faults
// ---------------------------------------------------------------------------------------------

/// The first of the indices from `from` below `n` at which something is wrong.
pub open spec fn first_from(from: int, n: int, wrong: spec_fn(int) -> bool) -> Option<int>
    decreases n - from,
{
    if from >= n {
        None
    } else if wrong(from) {
        Some(from)
    } else {
        first_from(from + 1, n, wrong)
    }
}

/// The first index is the one before which nothing is wrong.
pub proof fn lemma_first_from(from: int, n: int, wrong: spec_fn(int) -> bool, at: int)
    requires
        from <= at <= n,
        forall|k: int| from <= k < at ==> !#[trigger] wrong(k),
        at < n ==> wrong(at),
    ensures
        first_from(from, n, wrong) == if at < n {
            Some(at)
        } else {
            None
        },
    decreases at - from,
{
    if from < at {
        assert(!wrong(from));
        lemma_first_from(from + 1, n, wrong, at);
    }
}

/// A message that names a line, counted from one.
pub open spec fn line_message(index: int, fault: Seq<char>) -> Seq<char> {
    "line "@ + decimal((index + 1) as nat) + " "@ + fault
}

/// A message that names a line, counted from one.
pub fn at_line(index: usize, fault: &str) -> (message: String)
    requires
        index < usize::MAX,
    ensures
        message@ == line_message(index as int, fault@),
{
    let mut message = "line ".to_owned();
    let number = decimal_string(index as u64 + 1);
    message.append(number.as_str());
    message.append(" ");
    message.append(fault);
    message
}

// ---------------------------------------------------------------------------------------------
// Field by field
// ---------------------------------------------------------------------------------------------

/// Every entry whose command is not blank gives one sighting, in order, with the command and the
/// time of the entry unchanged and nothing else known of it.
pub proof fn an_entry_keeps_its_command_and_its_time(entries: Seq<Entry>)
    ensures
        ({
            let kept = entries.filter(|entry: Entry| !blank(entry.cmd));
            let history = imported(entries);
            &&& history.len() == kept.len()
            &&& forall|k: int|
                0 <= k < history.len() ==> {
                    &&& (#[trigger] history[k]).cmd == kept[k].cmd
                    &&& history[k].ts == kept[k].ts
                    &&& history[k].cwd is None
                    &&& history[k].exit is None
                    &&& history[k].session is None
                }
        }),
    decreases entries.len(),
{
    reveal(Seq::filter);
    if entries.len() > 0 {
        an_entry_keeps_its_command_and_its_time(entries.drop_last());
    }
}

/// With no blank command among them, the sightings are the entries one for one.
pub proof fn entries_are_imported_one_for_one(entries: Seq<Entry>)
    requires
        forall|k: int| 0 <= k < entries.len() ==> !blank((#[trigger] entries[k]).cmd),
    ensures
        imported(entries).len() == entries.len(),
        forall|k: int|
            0 <= k < entries.len() ==> (#[trigger] imported(entries)[k]).cmd == entries[k].cmd
                && imported(entries)[k].ts == entries[k].ts,
    decreases entries.len(),
{
    if entries.len() > 0 {
        let rest = entries.drop_last();
        assert forall|k: int| 0 <= k < rest.len() implies !blank((#[trigger] rest[k]).cmd) by {
            assert(rest[k] == entries[k]);
        }
        entries_are_imported_one_for_one(rest);
        assert(!blank(entries[entries.len() - 1].cmd));
    }
}

/// The lines at the start that have a property are followed by one that has not, or by none.
pub proof fn leading_lines_are_the_first_ones(
    lines: Seq<Seq<char>>,
    property: spec_fn(Seq<char>) -> bool,
)
    ensures
        0 <= leading(lines, property) <= lines.len(),
        forall|k: int| 0 <= k < leading(lines, property) ==> property(#[trigger] lines[k]),
        leading(lines, property) < lines.len() ==> !property(lines[leading(lines, property)]),
    decreases lines.len(),
{
    if lines.len() > 0 && property(lines[0]) {
        let rest = lines.drop_first();
        leading_lines_are_the_first_ones(rest, property);
        assert forall|k: int| 0 <= k < leading(lines, property) implies property(
            #[trigger] lines[k],
        ) by {
            if k > 0 {
                assert(rest[k - 1] == lines[k]);
            }
        }
    }
}

/// The first fault has none before it, and there is no first one only where there is none at all.
pub proof fn the_first_fault_is_the_first(from: int, n: int, wrong: spec_fn(int) -> bool)
    ensures
        match first_from(from, n, wrong) {
            Some(i) => from <= i < n && wrong(i) && forall|k: int|
                from <= k < i ==> !#[trigger] wrong(k),
            None => forall|k: int| from <= k < n ==> !#[trigger] wrong(k),
        },
    decreases n - from,
{
    if from < n && !wrong(from) {
        the_first_fault_is_the_first(from + 1, n, wrong);
    }
}

/// A fault is reported with its line, the first of which is line 1.
pub proof fn a_fault_names_its_line(index: nat, fault: Seq<char>)
    ensures
        line_message(index as int, fault) == "line "@ + decimal(index + 1) + " "@ + fault,
{
}

} // verus!
