//! Fish history.
//!
//! Fish owns this YAML-like format and escape scheme:
//! https://github.com/fish-shell/fish-shell/blob/9654f5e4bd00066e8d0db7fdb66e7b12458f8f4e/src/history/yaml_backend.rs#L8-L70

use vstd::prelude::*;

use crate::db::{sightings, Observation};
use crate::import::entry::{
    at_line, first_from, imported, leading, lemma_first_from, lemma_imported_push, lemma_leading,
    lemma_leading_bound, line_message, push_observation, Entry,
};
use crate::table::Sighting;
use crate::text::{
    blank, chars_of, ended, has_prefix, integer, integer_reads_back, is_blank, lemma_integer_chars,
    lines, one_line, parse_integer, parsed, slices, split_lines, strip_prefix,
    whole_lines_read_back,
};

verus! {

/// What starts the line of a command.
pub const CMD: &'static str = "- cmd: ";

/// What starts the line of a time.
pub const WHEN: &'static str = "  when: ";

pub const UNSUPPORTED_ESCAPE: &'static str = "has an unsupported Fish escape";

pub const INCOMPLETE_ESCAPE: &'static str = "ends with an incomplete Fish escape";

pub const EARLY_METADATA: &'static str = "has metadata before a command";

pub const INVALID_TIMESTAMP: &'static str = "has an invalid Fish timestamp";

pub const INVALID_RECORD: &'static str = "has an invalid Fish record";

// ---------------------------------------------------------------------------------------------
// Escapes
// ---------------------------------------------------------------------------------------------

/// A character before what a decoding gave, unless the decoding failed.
pub open spec fn prepended(c: char, rest: Result<Seq<char>, Seq<char>>) -> Result<
    Seq<char>,
    Seq<char>,
> {
    match rest {
        Ok(text) => Ok(seq![c] + text),
        Err(fault) => Err(fault),
    }
}

/// A text with the two escapes fish writes undone, `\n` and `\\`, or what is wrong with the first
/// other one. An unknown escape is an error rather than a literal backslash, because guessing
/// would silently import a command that differs from the one that ran.
pub open spec fn unescaped(text: Seq<char>) -> Result<Seq<char>, Seq<char>>
    decreases text.len(),
{
    if text.len() == 0 {
        Ok(Seq::empty())
    } else if text[0] != '\\' {
        prepended(text[0], unescaped(text.skip(1)))
    } else if text.len() == 1 {
        Err(INCOMPLETE_ESCAPE@)
    } else if text[1] == 'n' {
        prepended('\n', unescaped(text.skip(2)))
    } else if text[1] == '\\' {
        prepended('\\', unescaped(text.skip(2)))
    } else {
        Err(UNSUPPORTED_ESCAPE@)
    }
}

/// What fish writes for a command.
pub open spec fn escaped(text: Seq<char>) -> Seq<char>
    decreases text.len(),
{
    if text.len() == 0 {
        Seq::empty()
    } else {
        let rest = escaped(text.skip(1));
        if text[0] == '\n' {
            seq!['\\', 'n'] + rest
        } else if text[0] == '\\' {
            seq!['\\', '\\'] + rest
        } else {
            seq![text[0]] + rest
        }
    }
}

/// Undoing what fish writes gives back any command.
pub proof fn unescaping_undoes_escaping(text: Seq<char>)
    ensures
        unescaped(escaped(text)) == Ok::<Seq<char>, Seq<char>>(text),
    decreases text.len(),
{
    if text.len() > 0 {
        let rest = escaped(text.skip(1));
        unescaping_undoes_escaping(text.skip(1));
        assert(seq![text[0]] + text.skip(1) =~= text);
        if text[0] == '\n' || text[0] == '\\' {
            assert(escaped(text).skip(2) =~= rest);
        } else {
            assert(escaped(text).skip(1) =~= rest);
        }
    } else {
        assert(text =~= Seq::empty());
    }
}

/// An escaped command takes one line.
pub proof fn an_escaped_command_takes_one_line(text: Seq<char>)
    ensures
        forall|k: int| 0 <= k < escaped(text).len() ==> #[trigger] escaped(text)[k] != '\n',
    decreases text.len(),
{
    if text.len() > 0 {
        an_escaped_command_takes_one_line(text.skip(1));
        let rest = escaped(text.skip(1));
        let all = escaped(text);
        assert forall|k: int| 0 <= k < all.len() implies #[trigger] all[k] != '\n' by {
            let head = all.len() - rest.len();
            if k >= head {
                assert(all[k] == rest[k - head]);
            }
        }
    }
}

/// A decoding that got this far with what it decoded.
spec fn continued(done: Seq<char>, rest: Result<Seq<char>, Seq<char>>) -> Result<
    Seq<char>,
    Seq<char>,
> {
    match rest {
        Ok(text) => Ok(done + text),
        Err(fault) => Err(fault),
    }
}

proof fn lemma_continued(done: Seq<char>, c: char, rest: Result<Seq<char>, Seq<char>>)
    ensures
        continued(done, prepended(c, rest)) == continued(done.push(c), rest),
{
    if let Ok(text) = rest {
        assert(done + (seq![c] + text) =~= done.push(c) + text);
    }
}

/// Undo the two escapes fish writes, `\n` and `\\`.
pub fn unescape_fish(text: &[char]) -> (out: Result<String, &'static str>)
    ensures
        match out {
            Ok(decoded) => unescaped(text@) == Ok::<Seq<char>, Seq<char>>(decoded@),
            Err(fault) => unescaped(text@) == Err::<Seq<char>, Seq<char>>(fault@),
        },
{
    let mut out = String::new();
    let mut i: usize = 0;
    proof {
        assert(text@.skip(0) =~= text@);
        if let Ok(all) = unescaped(text@) {
            assert(out@ + all =~= all);
        }
    }
    while i < text.len()
        invariant
            i <= text@.len(),
            continued(out@, unescaped(text@.skip(i as int))) == unescaped(text@),
        decreases text@.len() - i,
    {
        let ghost rest = text@.skip(i as int);
        let ghost done = out@;
        if text[i] != '\\' {
            out.push(text[i]);
            proof {
                assert(rest.skip(1) =~= text@.skip(i + 1));
                lemma_continued(done, rest[0], unescaped(rest.skip(1)));
            }
            i += 1;
        } else if i + 1 == text.len() {
            return Err(INCOMPLETE_ESCAPE);
        } else {
            let escape = text[i + 1];
            if escape == 'n' {
                out.push('\n');
            } else if escape == '\\' {
                out.push('\\');
            } else {
                return Err(UNSUPPORTED_ESCAPE);
            }
            proof {
                assert(rest.skip(2) =~= text@.skip(i + 2));
                lemma_continued(done, '\n', unescaped(rest.skip(2)));
                lemma_continued(done, '\\', unescaped(rest.skip(2)));
            }
            i += 2;
        }
    }
    proof {
        assert(text@.skip(i as int) =~= Seq::empty());
        assert(out@ + Seq::<char>::empty() =~= out@);
    }
    Ok(out)
}

// ---------------------------------------------------------------------------------------------
// Records
// ---------------------------------------------------------------------------------------------

/// Whether a line opens a record.
pub open spec fn opens(line: Seq<char>) -> bool {
    has_prefix(line, CMD@)
}

/// Whether a line belongs to the record before it.
pub open spec fn belongs() -> spec_fn(Seq<char>) -> bool {
    |line: Seq<char>| !opens(line)
}

/// Whether a line dates the record it belongs to.
pub open spec fn dates(line: Seq<char>) -> bool {
    !opens(line) && has_prefix(line, WHEN@)
}

/// What is wrong with line `i`, if anything. Indented lines other than a time are keys padloper
/// has no use for: fish records which files a command touched.
pub open spec fn fish_fault(lines: Seq<Seq<char>>, i: int) -> Option<Seq<char>> {
    let line = lines[i];
    if opens(line) {
        match unescaped(line.skip(CMD@.len() as int)) {
            Ok(_) => None,
            Err(fault) => Some(fault),
        }
    } else if dates(line) {
        if forall|k: int| 0 <= k < i ==> !opens(#[trigger] lines[k]) {
            Some(EARLY_METADATA@)
        } else if parsed(line.skip(WHEN@.len() as int)) is None {
            Some(INVALID_TIMESTAMP@)
        } else {
            None
        }
    } else if blank(line) || line[0] == ' ' {
        None
    } else {
        Some(INVALID_RECORD@)
    }
}

/// The time of a record: what its last time line says, or the fallback when it has none.
pub open spec fn dated(body: Seq<Seq<char>>, fallback_ts: i64) -> i64
    decreases body.len(),
{
    if body.len() == 0 {
        fallback_ts
    } else if dates(body.last()) {
        parsed(body.last().skip(WHEN@.len() as int))->0 as i64
    } else {
        dated(body.drop_last(), fallback_ts)
    }
}

/// The records of a history with no faults.
pub open spec fn fish_entries(lines: Seq<Seq<char>>, fallback_ts: i64) -> Seq<Entry>
    decreases lines.len(),
{
    if lines.len() == 0 {
        Seq::empty()
    } else if !opens(lines[0]) {
        fish_entries(lines.drop_first(), fallback_ts)
    } else {
        let body = leading(lines.drop_first(), belongs());
        proof {
            lemma_leading_bound(lines.drop_first(), belongs());
        }
        let entry = Entry {
            cmd: unescaped(lines[0].skip(CMD@.len() as int))->Ok_0,
            ts: dated(lines.subrange(1, 1 + body), fallback_ts),
        };
        seq![entry] + fish_entries(lines.skip(1 + body), fallback_ts)
    }
}

/// What a Fish history holds, or what is wrong with its first faulty line.
pub open spec fn fish_history(text: Seq<char>, fallback_ts: i64) -> Result<
    Seq<Sighting>,
    Seq<char>,
> {
    let all = lines(text);
    match first_from(0, all.len() as int, |i: int| fish_fault(all, i) is Some) {
        Some(i) => Err(line_message(i, fish_fault(all, i)->0)),
        None => Ok(imported(fish_entries(all, fallback_ts))),
    }
}

/// Read a line that opens no record. Gives the time if the line holds one, and fails as
/// [`fish_fault`] says for a line with a record before it or without.
fn metadata(line: &[char], inside: bool) -> (ts: Result<Option<i64>, &'static str>)
    requires
        !opens(line@),
    ensures
        match ts {
            Ok(Some(t)) => dates(line@) && inside && parsed(line@.skip(WHEN@.len() as int)) == Some(
                t as int,
            ),
            Ok(None) => !dates(line@) && (blank(line@) || line@[0] == ' '),
            Err(fault) => {
                ||| dates(line@) && !inside && fault@ == EARLY_METADATA@
                ||| dates(line@) && inside && parsed(line@.skip(WHEN@.len() as int)) is None
                    && fault@ == INVALID_TIMESTAMP@
                ||| !dates(line@) && !blank(line@) && line@[0] != ' ' && fault@ == INVALID_RECORD@
            },
        },
{
    match strip_prefix(line, WHEN) {
        Some(value) => {
            if !inside {
                return Err(EARLY_METADATA);
            }
            match parse_integer(value) {
                Some(t) => Ok(Some(t)),
                None => Err(INVALID_TIMESTAMP),
            }
        },
        None => {
            if is_blank(line) || line[0] == ' ' {
                Ok(None)
            } else {
                Err(INVALID_RECORD)
            }
        },
    }
}

/// Parse Fish history. Strict, for the same reason as [`crate::import::zsh::parse_zsh`].
///
/// The format looks like YAML but is not, so this reads it line by line the way fish writes it.
/// `when` is optional in principle, hence `fallback_ts`.
pub fn parse_fish(text: &str, fallback_ts: i64) -> (rows: Result<Vec<Observation>, String>)
    ensures
        match rows {
            Ok(out) => fish_history(text@, fallback_ts) == Ok::<Seq<Sighting>, Seq<char>>(
                sightings(out@),
            ),
            Err(message) => fish_history(text@, fallback_ts) == Err::<Seq<Sighting>, Seq<char>>(
                message@,
            ),
        },
{
    let chars = chars_of(text);
    let parts = split_lines(chars.as_slice());
    let ghost all = lines(text@);
    let ghost wrong = |i: int| fish_fault(all, i) is Some;
    let ghost n = all.len() as int;
    let mut out: Vec<Observation> = Vec::new();
    let mut i: usize = 0;
    let ghost mut entries: Seq<Entry> = Seq::empty();
    proof {
        assert(sightings(out@) =~= imported(entries));
        assert(all.skip(0) =~= all);
        assert(entries + fish_entries(all.skip(0), fallback_ts) =~= fish_entries(all, fallback_ts));
    }
    while i < parts.len()
        invariant
            i <= parts@.len(),
            all == slices(parts@),
            all == lines(text@),
            n == all.len(),
            wrong == (|i: int| fish_fault(all, i) is Some),
            forall|k: int| 0 <= k < i ==> (#[trigger] fish_fault(all, k)) is None,
            entries.len() == 0 ==> forall|k: int| 0 <= k < i ==> !opens(#[trigger] all[k]),
            i < n && entries.len() > 0 ==> opens(all[i as int]),
            entries + fish_entries(all.skip(i as int), fallback_ts) == fish_entries(
                all,
                fallback_ts,
            ),
            sightings(out@) == imported(entries),
        decreases parts@.len() - i,
    {
        let ghost rest = all.skip(i as int);
        assert(all[i as int] == parts@[i as int]@);
        match strip_prefix(parts[i], CMD) {
            Some(encoded) => {
                let cmd = match unescape_fish(encoded) {
                    Ok(cmd) => cmd,
                    Err(fault) => {
                        proof {
                            assert(wrong(i as int));
                            lemma_first_from(0, n, wrong, i as int);
                        }
                        return Err(at_line(i, fault));
                    },
                };
                assert(fish_fault(all, i as int) is None);
                let mut ts: i64 = fallback_ts;
                let mut j: usize = i + 1;
                while j < parts.len() && strip_prefix(parts[j], CMD).is_none()
                    invariant
                        i < j <= parts@.len(),
                        all == slices(parts@),
                        all == lines(text@),
                        n == all.len(),
                        wrong == (|i: int| fish_fault(all, i) is Some),
                        opens(all[i as int]),
                        forall|k: int| 0 <= k < j ==> (#[trigger] fish_fault(all, k)) is None,
                        forall|k: int| i < k < j ==> !opens(#[trigger] all[k]),
                        ts == dated(all.subrange(i + 1, j as int), fallback_ts),
                    decreases parts@.len() - j,
                {
                    assert(all[j as int] == parts@[j as int]@);
                    let ghost before = all.subrange(i + 1, j as int);
                    let ghost after = all.subrange(i + 1, j + 1);
                    proof {
                        assert(after.drop_last() =~= before);
                        assert(after.last() == all[j as int]);
                        assert(exists|k: int| 0 <= k < j && opens(#[trigger] all[k]));
                    }
                    match metadata(parts[j], true) {
                        Ok(Some(t)) => {
                            ts = t;
                        },
                        Ok(None) => {},
                        Err(fault) => {
                            proof {
                                assert(wrong(j as int));
                                lemma_first_from(0, n, wrong, j as int);
                            }
                            return Err(at_line(j, fault));
                        },
                    }
                    assert(fish_fault(all, j as int) is None);
                    j += 1;
                }
                push_observation(&mut out, cmd, ts);
                proof {
                    let body = j - i - 1;
                    assert forall|k: int| 0 <= k < body implies belongs()(
                        #[trigger] rest.drop_first()[k],
                    ) by {
                        assert(rest.drop_first()[k] == all[i + 1 + k]);
                    }
                    lemma_leading(rest.drop_first(), belongs(), body);
                    assert(rest.subrange(1, 1 + body) =~= all.subrange(i + 1, j as int));
                    assert(rest.skip(1 + body) =~= all.skip(j as int));
                    let entry = Entry { cmd: cmd@, ts };
                    lemma_imported_push(entries, entry);
                    assert(entries.push(entry) + fish_entries(all.skip(j as int), fallback_ts)
                        =~= entries + (seq![entry] + fish_entries(
                        all.skip(j as int),
                        fallback_ts,
                    )));
                    entries = entries.push(entry);
                }
                i = j;
            },
            None => {
                if let Err(fault) = metadata(parts[i], false) {
                    proof {
                        assert(wrong(i as int));
                        lemma_first_from(0, n, wrong, i as int);
                    }
                    return Err(at_line(i, fault));
                }
                proof {
                    assert(fish_fault(all, i as int) is None);
                    assert(rest.drop_first() =~= all.skip(i + 1));
                }
                i += 1;
            },
        }
    }
    proof {
        lemma_first_from(0, n, wrong, n);
        assert(entries + fish_entries(all.skip(i as int), fallback_ts) =~= entries);
    }
    Ok(out)
}

// ---------------------------------------------------------------------------------------------
// What the format keeps
// ---------------------------------------------------------------------------------------------

/// The command line that fish writes for an entry.
pub open spec fn cmd_line(entry: Entry) -> Seq<char> {
    CMD@ + escaped(entry.cmd)
}

/// The time line that fish writes for an entry.
pub open spec fn when_line(entry: Entry) -> Seq<char> {
    WHEN@ + integer(entry.ts as int)
}

/// The lines that fish writes for its entries: a command line and a time line for each.
pub open spec fn written(entries: Seq<Entry>) -> Seq<Seq<char>> {
    Seq::new(
        2 * entries.len(),
        |i: int|
            if i % 2 == 0 {
                cmd_line(entries[i / 2])
            } else {
                when_line(entries[i / 2])
            },
    )
}

/// No command ends in a carriage return, which would be taken for part of a line ending.
pub open spec fn writable(entries: Seq<Entry>) -> bool {
    forall|k: int|
        0 <= k < entries.len() && (#[trigger] entries[k]).cmd.len() > 0 ==> entries[k].cmd.last()
            != '\r'
}

proof fn lemma_escaped_end(text: Seq<char>)
    requires
        text.len() > 0,
        text.last() != '\r',
    ensures
        escaped(text).len() > 0,
        escaped(text).last() != '\r',
    decreases text.len(),
{
    if text.len() > 1 {
        assert(text.skip(1).last() == text.last());
        lemma_escaped_end(text.skip(1));
    } else {
        assert(escaped(text.skip(1)) =~= Seq::empty());
    }
}

proof fn lemma_cmd_line(entry: Entry)
    requires
        entry.cmd.len() > 0 ==> entry.cmd.last() != '\r',
    ensures
        opens(cmd_line(entry)),
        unescaped(cmd_line(entry).skip(CMD@.len() as int)) == Ok::<Seq<char>, Seq<char>>(entry.cmd),
        one_line(cmd_line(entry)),
{
    reveal_strlit("- cmd: ");
    let line = cmd_line(entry);
    let e = escaped(entry.cmd);
    an_escaped_command_takes_one_line(entry.cmd);
    unescaping_undoes_escaping(entry.cmd);
    assert(line.subrange(0, CMD@.len() as int) =~= CMD@);
    assert(line.skip(CMD@.len() as int) =~= e);
    assert forall|k: int| 0 <= k < line.len() implies #[trigger] line[k] != '\n' by {
        if k >= CMD@.len() {
            assert(line[k] == e[k - CMD@.len()]);
        }
    }
    if entry.cmd.len() > 0 {
        lemma_escaped_end(entry.cmd);
        assert(line.last() == e.last());
    } else {
        assert(e =~= Seq::empty());
        assert(line.last() == ' ');
    }
}

proof fn lemma_when_line(entry: Entry)
    ensures
        dates(when_line(entry)),
        parsed(when_line(entry).skip(WHEN@.len() as int)) == Some(entry.ts as int),
        one_line(when_line(entry)),
{
    reveal_strlit("- cmd: ");
    reveal_strlit("  when: ");
    let line = when_line(entry);
    let n = integer(entry.ts as int);
    integer_reads_back(entry.ts as int);
    lemma_integer_chars(entry.ts as int);
    assert(line.subrange(0, WHEN@.len() as int) =~= WHEN@);
    assert(line.skip(WHEN@.len() as int) =~= n);
    assert(!opens(line)) by {
        if opens(line) {
            assert(line.subrange(0, CMD@.len() as int)[0] == CMD@[0]);
            assert(line[0] == WHEN@[0]);
        }
    }
    assert forall|k: int| 0 <= k < line.len() implies #[trigger] line[k] != '\n' by {
        if k >= WHEN@.len() {
            assert(line[k] == n[k - WHEN@.len()]);
        }
    }
    assert(line.last() == n[n.len() - 1]);
}

proof fn lemma_written_entries(entries: Seq<Entry>, fallback_ts: i64)
    requires
        writable(entries),
    ensures
        fish_entries(written(entries), fallback_ts) == entries,
    decreases entries.len(),
{
    let all = written(entries);
    if entries.len() > 0 {
        let first = entries[0];
        let others = entries.skip(1);
        assert(writable(others)) by {
            assert forall|k: int|
                0 <= k < others.len() && (#[trigger] others[k]).cmd.len() > 0 implies
                others[k].cmd.last() != '\r' by {
                assert(others[k] == entries[k + 1]);
            }
        }
        lemma_written_entries(others, fallback_ts);
        lemma_cmd_line(first);
        lemma_when_line(first);
        assert(all[0] == cmd_line(first));
        assert(all[1] == when_line(first));
        let after = all.drop_first();
        assert(after[0] == all[1]);
        if entries.len() > 1 {
            lemma_cmd_line(entries[1]);
            assert(all[2] == cmd_line(entries[1]));
            assert(after[1] == all[2]);
        }
        lemma_leading(after, belongs(), 1);
        assert(all.skip(2) =~= written(others)) by {
            assert forall|i: int| 0 <= i < written(others).len() implies
                #[trigger] written(others)[i] == all.skip(2)[i] by {
                assert((i + 2) / 2 == i / 2 + 1 && (i + 2) % 2 == i % 2);
                assert(others[i / 2] == entries[i / 2 + 1]);
            }
        }
        let body = all.subrange(1, 2);
        assert(body.last() == when_line(first));
        assert(seq![first] + others =~= entries);
    } else {
        assert(entries =~= Seq::empty());
    }
}

/// A history file that fish wrote imports as the commands and times it was written with, as long
/// as no command ends in a carriage return. Only blank commands are left out.
pub proof fn a_written_history_reads_back(entries: Seq<Entry>, fallback_ts: i64)
    requires
        writable(entries),
    ensures
        fish_history(ended(written(entries)), fallback_ts) == Ok::<Seq<Sighting>, Seq<char>>(
            imported(entries),
        ),
{
    let all = written(entries);
    assert forall|i: int| 0 <= i < all.len() implies one_line(#[trigger] all[i]) by {
        lemma_cmd_line(entries[i / 2]);
        lemma_when_line(entries[i / 2]);
    }
    whole_lines_read_back(all);
    lemma_written_entries(entries, fallback_ts);
    let wrong = |i: int| fish_fault(all, i) is Some;
    assert forall|i: int| 0 <= i < all.len() implies !#[trigger] wrong(i) by {
        let entry = entries[i / 2];
        lemma_cmd_line(entry);
        lemma_when_line(entry);
        if i % 2 == 0 {
            assert(all[i] == cmd_line(entry));
        } else {
            assert(all[i] == when_line(entry));
            assert((i - 1) / 2 == i / 2 && (i - 1) % 2 == 0);
            assert(all[i - 1] == cmd_line(entry));
            assert(opens(all[i - 1]));
        }
    }
    lemma_first_from(0, all.len() as int, wrong, all.len() as int);
}

// ---------------------------------------------------------------------------------------------
// Line by line
// ---------------------------------------------------------------------------------------------

/// Decoding goes from left to right. A backslash before an n is a line feed, one before another is
/// a backslash, and any other fails; every other character stands for itself.
pub proof fn escapes_are_undone_one_by_one(c: char, rest: Seq<char>)
    ensures
        unescaped(Seq::empty()) == Ok::<Seq<char>, Seq<char>>(Seq::empty()),
        c != '\\' ==> match unescaped(rest) {
            Ok(text) => unescaped(seq![c] + rest) == Ok::<Seq<char>, Seq<char>>(seq![c] + text),
            Err(fault) => unescaped(seq![c] + rest) == Err::<Seq<char>, Seq<char>>(fault),
        },
        match unescaped(rest) {
            Ok(text) => unescaped(seq!['\\', 'n'] + rest) == Ok::<Seq<char>, Seq<char>>(
                seq!['\n'] + text,
            ) && unescaped(seq!['\\', '\\'] + rest) == Ok::<Seq<char>, Seq<char>>(
                seq!['\\'] + text,
            ),
            Err(fault) => unescaped(seq!['\\', 'n'] + rest) == Err::<Seq<char>, Seq<char>>(fault)
                && unescaped(seq!['\\', '\\'] + rest) == Err::<Seq<char>, Seq<char>>(fault),
        },
        unescaped(seq!['\\']) == Err::<Seq<char>, Seq<char>>(
            "ends with an incomplete Fish escape"@,
        ),
        c != 'n' && c != '\\' ==> unescaped(seq!['\\', c] + rest) == Err::<Seq<char>, Seq<char>>(
            "has an unsupported Fish escape"@,
        ),
{
    assert((seq![c] + rest).skip(1) =~= rest);
    assert((seq!['\\', 'n'] + rest).skip(2) =~= rest);
    assert((seq!['\\', '\\'] + rest).skip(2) =~= rest);
}

/// A record opens with `- cmd: `, and a line that starts with `  when: ` dates the one it is in.
pub proof fn fish_lines_are_told_by_how_they_start(line: Seq<char>)
    ensures
        opens(line) <==> has_prefix(line, "- cmd: "@),
        dates(line) <==> has_prefix(line, "  when: "@),
{
    reveal_strlit("- cmd: ");
    reveal_strlit("  when: ");
    if has_prefix(line, CMD@) && has_prefix(line, WHEN@) {
        assert(line.subrange(0, 7)[0] == line[0]);
        assert(line.subrange(0, 8)[0] == line[0]);
    }
}

/// A command line is bad when its escapes are, a time line when no record is open or it holds no
/// number, and any other when it is neither blank nor indented.
pub proof fn a_bad_fish_line_says_what_is_wrong(lines: Seq<Seq<char>>, i: int, before: int)
    requires
        0 <= i < lines.len(),
    ensures
        opens(lines[i]) ==> match unescaped(lines[i].skip(7)) {
            Ok(_) => fish_fault(lines, i) is None,
            Err(fault) => fish_fault(lines, i) == Some(fault),
        },
        dates(lines[i]) && (forall|k: int| 0 <= k < i ==> !opens(#[trigger] lines[k]))
            ==> fish_fault(lines, i) == Some("has metadata before a command"@),
        dates(lines[i]) && 0 <= before < i && opens(lines[before]) ==> fish_fault(lines, i)
            == if parsed(lines[i].skip(8)) is Some {
            None
        } else {
            Some("has an invalid Fish timestamp"@)
        },
        !opens(lines[i]) && !dates(lines[i]) ==> fish_fault(lines, i) == if blank(lines[i])
            || lines[i][0] == ' ' {
            None
        } else {
            Some("has an invalid Fish record"@)
        },
{
    reveal_strlit("- cmd: ");
    reveal_strlit("  when: ");
}

/// The time of a record is what its last time line says, whatever stands before that, or the
/// fallback when it has none.
pub proof fn the_last_time_line_dates_a_record(body: Seq<Seq<char>>, i: int, fallback_ts: i64)
    ensures
        (forall|k: int| 0 <= k < body.len() ==> !dates(#[trigger] body[k])) ==> dated(
            body,
            fallback_ts,
        ) == fallback_ts,
        0 <= i < body.len() && dates(body[i]) && parsed(body[i].skip(8)) is Some && (forall|k: int|
            i < k < body.len() ==> !dates(#[trigger] body[k])) ==> dated(body, fallback_ts)
            == parsed(body[i].skip(8))->0,
    decreases body.len(),
{
    reveal_strlit("  when: ");
    if body.len() > 0 {
        let rest = body.drop_last();
        the_last_time_line_dates_a_record(rest, i, fallback_ts);
        if forall|k: int| 0 <= k < body.len() ==> !dates(#[trigger] body[k]) {
            assert(!dates(body[body.len() - 1]));
            assert forall|k: int| 0 <= k < rest.len() implies !dates(#[trigger] rest[k]) by {
                assert(rest[k] == body[k]);
            }
        }
        if 0 <= i < body.len() && dates(body[i]) && parsed(body[i].skip(8)) is Some && (forall|
            k: int,
        |
            i < k < body.len() ==> !dates(#[trigger] body[k])) {
            if i < rest.len() {
                assert(!dates(body[body.len() - 1]));
                assert(rest[i] == body[i]);
                assert forall|k: int| i < k < rest.len() implies !dates(#[trigger] rest[k]) by {
                    assert(rest[k] == body[k]);
                }
            }
        }
    }
}

/// A command line opens a record with the command it holds, decoded, and the lines up to the next
/// one date it. What stands before the first gives nothing.
pub proof fn a_fish_history_goes_record_by_record(
    lines: Seq<Seq<char>>,
    fallback_ts: i64,
    n: int,
    cmd: Seq<char>,
)
    requires
        lines.len() > 0,
    ensures
        fish_entries(Seq::empty(), fallback_ts) == Seq::<Entry>::empty(),
        !opens(lines[0]) ==> fish_entries(lines, fallback_ts) == fish_entries(
            lines.drop_first(),
            fallback_ts,
        ),
        opens(lines[0]) && unescaped(lines[0].skip(7)) == Ok::<Seq<char>, Seq<char>>(cmd) && 1 <= n
            <= lines.len() && (forall|k: int| 1 <= k < n ==> !opens(#[trigger] lines[k])) && (n
            < lines.len() ==> opens(lines[n])) ==> fish_entries(lines, fallback_ts) == seq![
            Entry { cmd, ts: dated(lines.subrange(1, n), fallback_ts) },
        ] + fish_entries(lines.skip(n), fallback_ts),
{
    reveal_strlit("- cmd: ");
    if opens(lines[0]) && unescaped(lines[0].skip(7)) == Ok::<Seq<char>, Seq<char>>(cmd) && 1 <= n
        <= lines.len() && (forall|k: int| 1 <= k < n ==> !opens(#[trigger] lines[k])) && (n
        < lines.len() ==> opens(lines[n])) {
        let rest = lines.drop_first();
        assert forall|k: int| 0 <= k < n - 1 implies belongs()(#[trigger] rest[k]) by {
            assert(rest[k] == lines[k + 1]);
        }
        if n < lines.len() {
            assert(rest[n - 1] == lines[n]);
        }
        lemma_leading(rest, belongs(), n - 1);
    }
}

/// A history is refused for its first bad line and for nothing else, and what is not refused is
/// imported whole.
pub proof fn a_fish_history_is_refused_for_its_first_bad_line(
    text: Seq<char>,
    fallback_ts: i64,
    i: int,
)
    ensures
        (forall|k: int|
            0 <= k < lines(text).len() ==> (#[trigger] fish_fault(lines(text), k)) is None)
            ==> fish_history(text, fallback_ts) == Ok::<Seq<Sighting>, Seq<char>>(
            imported(fish_entries(lines(text), fallback_ts)),
        ),
        0 <= i < lines(text).len() && fish_fault(lines(text), i) is Some && (forall|k: int|
            0 <= k < i ==> (#[trigger] fish_fault(lines(text), k)) is None) ==> fish_history(
            text,
            fallback_ts,
        ) == Err::<Seq<Sighting>, Seq<char>>(line_message(i, fish_fault(lines(text), i)->0)),
{
    let all = lines(text);
    let wrong = |k: int| fish_fault(all, k) is Some;
    if forall|k: int| 0 <= k < all.len() ==> (#[trigger] fish_fault(all, k)) is None {
        lemma_first_from(0, all.len() as int, wrong, all.len() as int);
    }
    if 0 <= i < all.len() && fish_fault(all, i) is Some && (forall|k: int|
        0 <= k < i ==> (#[trigger] fish_fault(all, k)) is None) {
        lemma_first_from(0, all.len() as int, wrong, i);
    }
}

/// Commands that are not blank come back from a history file that fish wrote one for one, each with
/// its own time.
pub proof fn a_written_history_keeps_commands_and_times(entries: Seq<Entry>, fallback_ts: i64)
    requires
        writable(entries),
        forall|k: int| 0 <= k < entries.len() ==> !blank((#[trigger] entries[k]).cmd),
    ensures
        fish_history(ended(written(entries)), fallback_ts) matches Ok(history) && {
            &&& history.len() == entries.len()
            &&& forall|k: int|
                0 <= k < entries.len() ==> (#[trigger] history[k]).ts == entries[k].ts
                    && history[k].cmd == entries[k].cmd
        },
{
    a_written_history_reads_back(entries, fallback_ts);
    crate::import::entry::entries_are_imported_one_for_one(entries);
}

} // verus!
