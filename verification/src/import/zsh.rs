//! Zsh extended history.
//!
//! EXTENDED_HISTORY record format:
//! https://zsh.sourceforge.io/Doc/Release/Options.html#History

use vstd::prelude::*;
use vstd::slice::slice_subrange;

use crate::db::{sightings, Observation};
use crate::import::entry::{
    at_line, first_from, imported, leading, lemma_first_from, lemma_imported_push, lemma_leading,
    lemma_leading_bound, line_message, push_observation, Entry,
};
use crate::table::Sighting;
use crate::text::{
    all_digits, blank, chars_of, decimal, decimal_reads_back, digits, ended, find, has_prefix,
    is_blank, is_digit, joined, lemma_position, lines, one_line, parse_integer, position, slices,
    split_lines, string_of, strip_prefix, value, whole_lines_read_back, without_prefix,
};

verus! {

/// What a history file says of a line that looks like a record and is not one.
pub const INVALID_RECORD: &'static str = "has an invalid Zsh record";

/// What a history file says of a plain command before the first record.
pub const MIXED_HISTORY: &'static str = "mixes plain and Zsh extended history";

/// The start time and the command of a `: <start>:<elapsed>;<command>` line. Both numbers must be
/// digits, which is what keeps a plain command beginning with ": " from reading as a header.
pub open spec fn header(line: Seq<char>) -> Option<Entry> {
    match without_prefix(line, ": "@) {
        Some(fields) => {
            let colon = position(fields, ':') as int;
            let start = fields.take(colon);
            let rest = fields.skip(colon + 1);
            let semicolon = position(rest, ';') as int;
            if colon < fields.len() && semicolon < rest.len() && digits(start) && digits(
                rest.take(semicolon),
            ) && value(start) <= i64::MAX {
                Some(Entry { cmd: rest.skip(semicolon + 1), ts: value(start) as i64 })
            } else {
                None
            }
        },
        None => None,
    }
}

/// Whether a line belongs to the record before it.
pub open spec fn continues() -> spec_fn(Seq<char>) -> bool {
    |line: Seq<char>| header(line) is None
}

/// Whether a line looks like a record and does not parse as one. A continuation line would be a
/// command starting with ": ", which is rare enough to be worth reporting instead of guessing.
pub open spec fn invalid(line: Seq<char>) -> bool {
    header(line) is None && has_prefix(line, ": "@)
}

/// Whether line `i` is a plain command with no record before it.
pub open spec fn mixed(lines: Seq<Seq<char>>, i: int) -> bool {
    !blank(lines[i]) && forall|k: int| 0 <= k <= i ==> header(#[trigger] lines[k]) is None
}

/// Whether line `i` makes the whole file unreadable.
pub open spec fn zsh_fault(lines: Seq<Seq<char>>, i: int) -> bool {
    invalid(lines[i]) || mixed(lines, i)
}

/// The records of a history with no faults. Zsh escapes the newline in a multiline command, so
/// anything after a header belongs to it; blank lines may precede the first.
pub open spec fn zsh_entries(lines: Seq<Seq<char>>) -> Seq<Entry>
    decreases lines.len(),
{
    if lines.len() == 0 {
        Seq::empty()
    } else {
        match header(lines[0]) {
            None => zsh_entries(lines.drop_first()),
            Some(first) => {
                let more = leading(lines.drop_first(), continues());
                proof {
                    lemma_leading_bound(lines.drop_first(), continues());
                }
                let cmd = joined(seq![first.cmd] + lines.subrange(1, 1 + more), "\n"@);
                seq![Entry { cmd, ts: first.ts }] + zsh_entries(lines.skip(1 + more))
            },
        }
    }
}

/// What a Zsh history holds, or what is wrong with its first faulty line.
pub open spec fn zsh_history(text: Seq<char>) -> Result<Seq<Sighting>, Seq<char>> {
    let all = lines(text);
    match first_from(0, all.len() as int, |i: int| zsh_fault(all, i)) {
        Some(i) => Err(
            line_message(
                i,
                if invalid(all[i]) {
                    INVALID_RECORD@
                } else {
                    MIXED_HISTORY@
                },
            ),
        ),
        None => Ok(imported(zsh_entries(all))),
    }
}

/// Split `: <start>:<elapsed>;<command>` into its start time and command.
pub fn zsh_header(line: &[char]) -> (found: Option<(i64, &[char])>)
    ensures
        match found {
            Some((ts, cmd)) => header(line@) == Some(Entry { cmd: cmd@, ts }),
            None => header(line@) is None,
        },
{
    let fields = match strip_prefix(line, ": ") {
        Some(fields) => fields,
        None => {
            return None;
        },
    };
    let colon: usize = find(fields, ':');
    if colon == fields.len() {
        return None;
    }
    let start = slice_subrange(fields, 0, colon);
    let rest = slice_subrange(fields, colon + 1, fields.len());
    proof {
        assert(start@ =~= fields@.take(colon as int));
        assert(rest@ =~= fields@.skip(colon + 1));
    }
    let semicolon: usize = find(rest, ';');
    if semicolon == rest.len() {
        return None;
    }
    let elapsed = slice_subrange(rest, 0, semicolon);
    let cmd = slice_subrange(rest, semicolon + 1, rest.len());
    proof {
        assert(elapsed@ =~= rest@.take(semicolon as int));
        assert(cmd@ =~= rest@.skip(semicolon + 1));
    }
    if !all_digits(start) || !all_digits(elapsed) {
        return None;
    }
    assert(is_digit(start@[0]));
    match parse_integer(start) {
        Some(ts) => Some((ts, cmd)),
        None => None,
    }
}

/// A record is its header and the lines up to the next one.
proof fn lemma_record(lines: Seq<Seq<char>>, i: int, j: int)
    requires
        0 <= i < j <= lines.len(),
        header(lines[i]) is Some,
        forall|k: int| i < k < j ==> header(#[trigger] lines[k]) is None,
        j < lines.len() ==> header(lines[j]) is Some,
    ensures
        zsh_entries(lines.skip(i)) == seq![
            Entry {
                cmd: joined(seq![header(lines[i])->0.cmd] + lines.subrange(i + 1, j), "\n"@),
                ts: header(lines[i])->0.ts,
            },
        ] + zsh_entries(lines.skip(j)),
{
    let rest = lines.skip(i);
    let more = j - i - 1;
    assert forall|k: int| 0 <= k < more implies continues()(#[trigger] rest.drop_first()[k]) by {
        assert(rest.drop_first()[k] == lines[i + 1 + k]);
    }
    if j < lines.len() {
        assert(rest.drop_first()[more] == lines[j]);
    }
    lemma_leading(rest.drop_first(), continues(), more);
    assert(rest.subrange(1, 1 + more) =~= lines.subrange(i + 1, j));
    assert(rest.skip(1 + more) =~= lines.skip(j));
}

/// Parse Zsh EXTENDED_HISTORY, `: <start>:<elapsed>;<command>`.
///
/// Strict, unlike the bash parser. A file that looks like zsh history but holds a broken record is
/// more likely a mangled file than a shell padloper should guess at, and every entry here carries
/// a real timestamp to lose.
pub fn parse_zsh(text: &str) -> (rows: Result<Vec<Observation>, String>)
    ensures
        match rows {
            Ok(out) => zsh_history(text@) == Ok::<Seq<Sighting>, Seq<char>>(sightings(out@)),
            Err(message) => zsh_history(text@) == Err::<Seq<Sighting>, Seq<char>>(message@),
        },
{
    let chars = chars_of(text);
    let parts = split_lines(chars.as_slice());
    let ghost all = lines(text@);
    let ghost wrong = |i: int| zsh_fault(all, i);
    let ghost n = all.len() as int;
    let mut out: Vec<Observation> = Vec::new();
    let mut i: usize = 0;
    let ghost mut entries: Seq<Entry> = Seq::empty();
    proof {
        assert(sightings(out@) =~= imported(entries));
        assert(all.skip(0) =~= all);
        assert(entries + zsh_entries(all.skip(0)) =~= zsh_entries(all));
    }
    while i < parts.len()
        invariant
            i <= parts@.len(),
            all == slices(parts@),
            all == lines(text@),
            n == all.len(),
            wrong == (|i: int| zsh_fault(all, i)),
            forall|k: int| 0 <= k < i ==> !#[trigger] zsh_fault(all, k),
            entries.len() == 0 ==> forall|k: int|
                0 <= k < i ==> header(#[trigger] all[k]) is None,
            i < n && entries.len() > 0 ==> header(all[i as int]) is Some,
            entries + zsh_entries(all.skip(i as int)) == zsh_entries(all),
            sightings(out@) == imported(entries),
        decreases parts@.len() - i,
    {
        let ghost rest = all.skip(i as int);
        assert(all[i as int] == parts@[i as int]@);
        match zsh_header(parts[i]) {
            Some((ts, first)) => {
                assert(!zsh_fault(all, i as int));
                let mut j: usize = i + 1;
                let mut cmd = string_of(first);
                while j < parts.len() && zsh_header(parts[j]).is_none()
                    invariant
                        i < j <= parts@.len(),
                        all == slices(parts@),
                        all == lines(text@),
                        n == all.len(),
                        wrong == (|i: int| zsh_fault(all, i)),
                        header(all[i as int]) is Some,
                        forall|k: int| 0 <= k < j ==> !#[trigger] zsh_fault(all, k),
                        forall|k: int| i < k < j ==> header(#[trigger] all[k]) is None,
                        cmd@ == joined(seq![first@] + all.subrange(i + 1, j as int), "\n"@),
                    decreases parts@.len() - j,
                {
                    assert(all[j as int] == parts@[j as int]@);
                    if strip_prefix(parts[j], ": ").is_some() {
                        proof {
                            assert(wrong(j as int));
                            lemma_first_from(0, n, wrong, j as int);
                        }
                        return Err(at_line(j, INVALID_RECORD));
                    }
                    assert(!zsh_fault(all, j as int));
                    cmd.append("\n");
                    let line = string_of(parts[j]);
                    cmd.append(line.as_str());
                    proof {
                        let before = seq![first@] + all.subrange(i + 1, j as int);
                        let after = seq![first@] + all.subrange(i + 1, j + 1);
                        assert(after.drop_last() =~= before);
                        assert(after.last() == line@);
                    }
                    j += 1;
                }
                push_observation(&mut out, cmd, ts);
                proof {
                    lemma_record(all, i as int, j as int);
                    let entry = Entry { cmd: cmd@, ts };
                    lemma_imported_push(entries, entry);
                    assert(entries.push(entry) + zsh_entries(all.skip(j as int)) =~= entries + (
                    seq![entry] + zsh_entries(all.skip(j as int))));
                    entries = entries.push(entry);
                }
                i = j;
            },
            None => {
                if strip_prefix(parts[i], ": ").is_some() {
                    proof {
                        assert(wrong(i as int));
                        lemma_first_from(0, n, wrong, i as int);
                    }
                    return Err(at_line(i, INVALID_RECORD));
                }
                if !is_blank(parts[i]) {
                    proof {
                        assert(mixed(all, i as int));
                        assert(wrong(i as int));
                        lemma_first_from(0, n, wrong, i as int);
                    }
                    return Err(at_line(i, MIXED_HISTORY));
                }
                proof {
                    assert(!zsh_fault(all, i as int));
                    assert(rest.drop_first() =~= all.skip(i + 1));
                }
                i += 1;
            },
        }
    }
    proof {
        lemma_first_from(0, n, wrong, n);
        assert(entries + zsh_entries(all.skip(i as int)) =~= entries);
    }
    Ok(out)
}

// ---------------------------------------------------------------------------------------------
// What the format keeps
// ---------------------------------------------------------------------------------------------

/// The header that Zsh writes for a command started at a time that took some seconds.
pub open spec fn written(start: nat, elapsed: nat, cmd: Seq<char>) -> Seq<char> {
    ": "@ + decimal(start) + ":"@ + decimal(elapsed) + ";"@ + cmd
}

/// A header that Zsh wrote reads back as the time and the command it was written with, whatever
/// the command holds.
pub proof fn a_written_header_reads_back(start: nat, elapsed: nat, cmd: Seq<char>)
    requires
        start <= i64::MAX,
    ensures
        header(written(start, elapsed, cmd)) == Some(Entry { cmd, ts: start as i64 }),
{
    reveal_strlit(": ");
    reveal_strlit(":");
    reveal_strlit(";");
    let line = written(start, elapsed, cmd);
    let s = decimal(start);
    let e = decimal(elapsed);
    decimal_reads_back(start);
    decimal_reads_back(elapsed);
    assert(line.subrange(0, 2) =~= ": "@);
    let fields = line.skip(2);
    assert(fields =~= s + seq![':'] + e + seq![';'] + cmd);
    assert forall|k: int| 0 <= k < s.len() implies #[trigger] fields[k] != ':' by {
        assert(fields[k] == s[k]);
        assert(is_digit(s[k]));
    }
    lemma_position(fields, ':', s.len() as int);
    assert(fields.take(s.len() as int) =~= s);
    let rest = fields.skip(s.len() as int + 1);
    assert(rest =~= e + seq![';'] + cmd);
    assert forall|k: int| 0 <= k < e.len() implies #[trigger] rest[k] != ';' by {
        assert(rest[k] == e[k]);
        assert(is_digit(e[k]));
    }
    lemma_position(rest, ';', e.len() as int);
    assert(rest.take(e.len() as int) =~= e);
    assert(rest.skip(e.len() as int + 1) =~= cmd);
}

/// A command with its times, as the lines it takes in a history file: the rest of the header line,
/// and the lines after it.
pub struct Record {
    pub start: i64,
    pub elapsed: nat,
    pub first: Seq<char>,
    pub more: Seq<Seq<char>>,
}

/// The lines that Zsh writes for its records.
pub open spec fn written_lines(records: Seq<Record>) -> Seq<Seq<char>>
    decreases records.len(),
{
    if records.len() == 0 {
        Seq::empty()
    } else {
        let r = records[0];
        seq![written(r.start as nat, r.elapsed, r.first)] + r.more + written_lines(
            records.drop_first(),
        )
    }
}

/// Whether a record survives being written: its start is not negative, every line is one as it
/// stands, and none after the first begins as a header does.
pub open spec fn record_writable(r: Record) -> bool {
    r.start >= 0 && one_line(r.first) && forall|k: int|
        0 <= k < r.more.len() ==> one_line(#[trigger] r.more[k]) && !has_prefix(r.more[k], ": "@)
}

/// Whether all records survive being written.
pub open spec fn writable(records: Seq<Record>) -> bool {
    forall|i: int| 0 <= i < records.len() ==> record_writable(#[trigger] records[i])
}

/// The command and the time of a record.
pub open spec fn record_entry(r: Record) -> Entry {
    Entry { cmd: joined(seq![r.first] + r.more, "\n"@), ts: r.start }
}

proof fn lemma_written_header(r: Record)
    requires
        record_writable(r),
    ensures
        one_line(written(r.start as nat, r.elapsed, r.first)),
        header(written(r.start as nat, r.elapsed, r.first)) == Some(
            Entry { cmd: r.first, ts: r.start },
        ),
{
    reveal_strlit(": ");
    reveal_strlit(":");
    reveal_strlit(";");
    a_written_header_reads_back(r.start as nat, r.elapsed, r.first);
    let line = written(r.start as nat, r.elapsed, r.first);
    let s = decimal(r.start as nat);
    let e = decimal(r.elapsed);
    decimal_reads_back(r.start as nat);
    decimal_reads_back(r.elapsed);
    assert(line =~= seq![':', ' '] + s + seq![':'] + e + seq![';'] + r.first);
    assert forall|k: int| 0 <= k < line.len() implies #[trigger] line[k] != '\n' by {
        let a = 2 + s.len();
        let b = a + 1 + e.len();
        if 2 <= k < a {
            assert(line[k] == s[k - 2]);
            assert(is_digit(s[k - 2]));
        } else if a < k < b {
            assert(line[k] == e[k - a - 1]);
            assert(is_digit(e[k - a - 1]));
        } else if k > b {
            assert(line[k] == r.first[k - b - 1]);
        }
    }
    if r.first.len() > 0 {
        assert(line.last() == r.first.last());
    } else {
        assert(line.last() == ';');
    }
}

/// The lines of the first record, and of those after it.
proof fn lemma_written_first(records: Seq<Record>)
    requires
        writable(records),
        records.len() > 0,
    ensures
        ({
            let r = records[0];
            let n = r.more.len() as int;
            let all = written_lines(records);
            let rest = written_lines(records.drop_first());
            &&& record_writable(r)
            &&& writable(records.drop_first())
            &&& all.len() == 1 + n + rest.len()
            &&& all[0] == written(r.start as nat, r.elapsed, r.first)
            &&& all.drop_first() == r.more + rest
            &&& all.subrange(1, 1 + n) == r.more
            &&& all.skip(1 + n) == rest
        }),
{
    let r = records[0];
    let n = r.more.len() as int;
    let others = records.drop_first();
    assert forall|i: int| 0 <= i < others.len() implies record_writable(#[trigger] others[i]) by {
        assert(others[i] == records[i + 1]);
    }
    let all = written_lines(records);
    assert(all.drop_first() =~= r.more + written_lines(others));
    assert(all.subrange(1, 1 + n) =~= r.more);
    assert(all.skip(1 + n) =~= written_lines(others));
}

/// Every line that is written is one line, and a valid one.
proof fn lemma_written_lines(records: Seq<Record>)
    requires
        writable(records),
    ensures
        forall|i: int|
            0 <= i < written_lines(records).len() ==> one_line(
                #[trigger] written_lines(records)[i],
            ) && !invalid(written_lines(records)[i]),
    decreases records.len(),
{
    if records.len() > 0 {
        let r = records[0];
        let n = r.more.len() as int;
        let all = written_lines(records);
        let rest = written_lines(records.drop_first());
        lemma_written_first(records);
        lemma_written_header(r);
        lemma_written_lines(records.drop_first());
        assert forall|i: int| 0 <= i < all.len() implies one_line(#[trigger] all[i]) && !invalid(
            all[i],
        ) by {
            if 0 < i <= n {
                assert(all.subrange(1, 1 + n)[i - 1] == all[i]);
                assert(one_line(r.more[i - 1]));
            } else if i > n {
                assert(all.skip(1 + n)[i - 1 - n] == all[i]);
                assert(one_line(rest[i - 1 - n]));
            }
        }
    }
}

/// What is written starts with a header.
proof fn lemma_written_start(records: Seq<Record>)
    requires
        writable(records),
        records.len() > 0,
    ensures
        written_lines(records).len() > 0,
        header(written_lines(records)[0]) == Some(
            Entry { cmd: records[0].first, ts: records[0].start },
        ),
{
    lemma_written_first(records);
    lemma_written_header(records[0]);
}

/// The entries of what is written are the records.
proof fn lemma_written_entries(records: Seq<Record>)
    requires
        writable(records),
    ensures
        zsh_entries(written_lines(records)) == records.map_values(|r: Record| record_entry(r)),
    decreases records.len(),
{
    let all = written_lines(records);
    let expected = records.map_values(|r: Record| record_entry(r));
    if records.len() > 0 {
        let r = records[0];
        let n = r.more.len() as int;
        let others = records.drop_first();
        let rest = written_lines(others);
        lemma_written_first(records);
        lemma_written_start(records);
        lemma_written_entries(others);
        let after = all.drop_first();
        assert forall|k: int| 0 <= k < n implies continues()(#[trigger] after[k]) by {
            assert(after[k] == r.more[k]);
        }
        if others.len() > 0 {
            lemma_written_start(others);
            assert(after[n] == rest[0]);
        }
        lemma_leading(after, continues(), n);
        assert(expected.drop_first() =~= others.map_values(|r: Record| record_entry(r)));
    }
    assert(zsh_entries(all) =~= expected);
}

/// A history file that Zsh wrote imports as the commands and times it was written with, multiline
/// commands whole. Only blank commands are left out.
pub proof fn a_written_history_reads_back(records: Seq<Record>)
    requires
        writable(records),
    ensures
        zsh_history(ended(written_lines(records))) == Ok::<Seq<Sighting>, Seq<char>>(
            imported(records.map_values(|r: Record| record_entry(r))),
        ),
{
    let all = written_lines(records);
    lemma_written_lines(records);
    lemma_written_entries(records);
    if records.len() > 0 {
        lemma_written_start(records);
    }
    whole_lines_read_back(all);
    let wrong = |i: int| zsh_fault(all, i);
    assert forall|i: int| 0 <= i < all.len() implies !#[trigger] wrong(i) by {
        assert(!invalid(all[i]));
        assert(header(all[0]) is Some);
    }
    lemma_first_from(0, all.len() as int, wrong, all.len() as int);
}

// ---------------------------------------------------------------------------------------------
// Line by line
// ---------------------------------------------------------------------------------------------

/// A header is a colon, a space, and the digits of the start time, then a colon, the digits of the
/// time it took, a semicolon, and the command, whatever that holds. Its time is what the digits of
/// the start denote, and no other line is a header.
pub proof fn a_header_is_its_fields(
    line: Seq<char>,
    start: Seq<char>,
    elapsed: Seq<char>,
    cmd: Seq<char>,
)
    ensures
        digits(start) && digits(elapsed) && value(start) <= i64::MAX ==> {
            let found = header(seq![':', ' '] + start + seq![':'] + elapsed + seq![';'] + cmd);
            found is Some && found->0.cmd == cmd && found->0.ts == value(start)
        },
        header(line) matches Some(entry) ==> exists|s: Seq<char>, e: Seq<char>|
            #[trigger] digits(s) && #[trigger] digits(e) && value(s) == entry.ts && line == seq![
                ':',
                ' ',
            ] + s + seq![':'] + e + seq![';'] + entry.cmd,
{
    reveal_strlit(": ");
    if digits(start) && digits(elapsed) && value(start) <= i64::MAX {
        let whole = seq![':', ' '] + start + seq![':'] + elapsed + seq![';'] + cmd;
        let fields = start + seq![':'] + elapsed + seq![';'] + cmd;
        let rest = elapsed + seq![';'] + cmd;
        assert(whole.subrange(0, 2) =~= ": "@);
        assert(whole.skip(2) =~= fields);
        assert forall|k: int| 0 <= k < start.len() implies #[trigger] fields[k] != ':' by {
            assert(fields[k] == start[k]);
            assert(is_digit(start[k]));
        }
        lemma_position(fields, ':', start.len() as int);
        assert(fields.take(start.len() as int) =~= start);
        assert(fields.skip(start.len() as int + 1) =~= rest);
        assert forall|k: int| 0 <= k < elapsed.len() implies #[trigger] rest[k] != ';' by {
            assert(rest[k] == elapsed[k]);
            assert(is_digit(elapsed[k]));
        }
        lemma_position(rest, ';', elapsed.len() as int);
        assert(rest.take(elapsed.len() as int) =~= elapsed);
        assert(rest.skip(elapsed.len() as int + 1) =~= cmd);
    }
    if let Some(entry) = header(line) {
        let fields = line.skip(2);
        let colon = position(fields, ':') as int;
        let s = fields.take(colon);
        let rest = fields.skip(colon + 1);
        let semicolon = position(rest, ';') as int;
        let e = rest.take(semicolon);
        crate::text::a_position_is_the_first(fields, ':');
        crate::text::a_position_is_the_first(rest, ';');
        assert(line.subrange(0, 2) == ": "@);
        assert(line[0] == line.subrange(0, 2)[0] && line[1] == line.subrange(0, 2)[1]);
        assert(line =~= seq![':', ' '] + fields);
        assert(fields =~= s + seq![':'] + rest);
        assert(rest =~= e + seq![';'] + entry.cmd);
        assert(line =~= seq![':', ' '] + s + seq![':'] + e + seq![';'] + entry.cmd);
    }
}

/// Lines before the first header give nothing. A header opens a record with its time, and its
/// command goes on over the lines up to the next header.
pub proof fn a_zsh_history_goes_record_by_record(lines: Seq<Seq<char>>, n: int)
    requires
        lines.len() > 0,
    ensures
        zsh_entries(Seq::empty()) == Seq::<Entry>::empty(),
        header(lines[0]) is None ==> zsh_entries(lines) == zsh_entries(lines.drop_first()),
        header(lines[0]) is Some && 1 <= n <= lines.len() && (forall|k: int|
            1 <= k < n ==> header(#[trigger] lines[k]) is None) && (n < lines.len() ==> header(
            lines[n],
        ) is Some) ==> zsh_entries(lines) == seq![
            Entry {
                cmd: joined(seq![header(lines[0])->0.cmd] + lines.subrange(1, n), "\n"@),
                ts: header(lines[0])->0.ts,
            },
        ] + zsh_entries(lines.skip(n)),
{
    if header(lines[0]) is Some && 1 <= n <= lines.len() && (forall|k: int|
        1 <= k < n ==> header(#[trigger] lines[k]) is None) && (n < lines.len() ==> header(
        lines[n],
    ) is Some) {
        lemma_record(lines, 0, n);
        assert(lines.skip(0) =~= lines);
    }
}

/// A line is bad when it starts as a record and is none, or when it is a plain command with no
/// record before it.
pub proof fn a_bad_line_is_a_broken_record_or_a_stray_command(lines: Seq<Seq<char>>, i: int)
    requires
        0 <= i < lines.len(),
    ensures
        zsh_fault(lines, i) <==> header(lines[i]) is None && ((lines[i].len() >= 2 && lines[i][0]
            == ':' && lines[i][1] == ' ') || (!blank(lines[i]) && forall|k: int|
            0 <= k < i ==> header(#[trigger] lines[k]) is None)),
{
    reveal_strlit(": ");
    let line = lines[i];
    if line.len() >= 2 && line[0] == ':' && line[1] == ' ' {
        assert(line.subrange(0, 2) =~= ": "@);
    }
    if has_prefix(line, ": "@) {
        assert(line.subrange(0, 2)[0] == line[0] && line.subrange(0, 2)[1] == line[1]);
    }
    if mixed(lines, i) {
        assert(header(lines[i]) is None);
    }
}

/// A history is refused for its first bad line and for nothing else, and what is not refused is
/// imported whole.
pub proof fn a_zsh_history_is_refused_for_its_first_bad_line(text: Seq<char>, i: int)
    ensures
        (forall|k: int| 0 <= k < lines(text).len() ==> !#[trigger] zsh_fault(lines(text), k))
            ==> zsh_history(text) == Ok::<Seq<Sighting>, Seq<char>>(
            imported(zsh_entries(lines(text))),
        ),
        0 <= i < lines(text).len() && zsh_fault(lines(text), i) && (forall|k: int|
            0 <= k < i ==> !#[trigger] zsh_fault(lines(text), k)) ==> zsh_history(text) == Err::<
            Seq<Sighting>,
            Seq<char>,
        >(
            line_message(
                i,
                if has_prefix(lines(text)[i], ": "@) {
                    "has an invalid Zsh record"@
                } else {
                    "mixes plain and Zsh extended history"@
                },
            ),
        ),
{
    let all = lines(text);
    let wrong = |k: int| zsh_fault(all, k);
    if forall|k: int| 0 <= k < all.len() ==> !#[trigger] zsh_fault(all, k) {
        lemma_first_from(0, all.len() as int, wrong, all.len() as int);
    }
    if 0 <= i < all.len() && zsh_fault(all, i) && (forall|k: int|
        0 <= k < i ==> !#[trigger] zsh_fault(all, k)) {
        lemma_first_from(0, all.len() as int, wrong, i);
    }
}

/// Commands that are not blank come back from a history file that Zsh wrote one for one, each with
/// its own start time.
pub proof fn a_written_history_keeps_commands_and_times(records: Seq<Record>)
    requires
        writable(records),
        forall|k: int|
            0 <= k < records.len() ==> !blank(
                joined(seq![(#[trigger] records[k]).first] + records[k].more, "\n"@),
            ),
    ensures
        zsh_history(ended(written_lines(records))) matches Ok(history) && {
            &&& history.len() == records.len()
            &&& forall|k: int|
                0 <= k < records.len() ==> (#[trigger] history[k]).ts == records[k].start
                    && history[k].cmd == joined(seq![records[k].first] + records[k].more, "\n"@)
        },
{
    a_written_history_reads_back(records);
    let read = records.map_values(|r: Record| record_entry(r));
    assert forall|k: int| 0 <= k < read.len() implies !blank((#[trigger] read[k]).cmd) by {
        assert(!blank(joined(seq![records[k].first] + records[k].more, "\n"@)));
    }
    crate::import::entry::entries_are_imported_one_for_one(read);
}

} // verus!
