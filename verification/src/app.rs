//! What each subcommand does, between reading its inputs and writing its outputs.

use vstd::prelude::*;

use crate::cli::{Cli, Command};
use crate::db::{ListRow, ListRowView, Observation};
use crate::shell::Shell;
use crate::table::Sighting;
use crate::text::{
    blank, blank_text_trims_to_nothing, decimal, decimal_string, integer, integer_string, join,
    joined, lemma_integer_chars, lemma_position, optional, position, texts, trim, trimmed,
};
use crate::timefmt::{age, an_age_is_short_and_printable, relative_time};
use crate::tui::{Outcome, OutcomeView};

verus! {

/// How many commands the picker searches. A bounded read keeps startup flat on a large db. Fuzzy
/// matching runs over every row on each keystroke, so this is also the latency budget.
pub const SEARCH_LIMIT: usize = 10000;

/// The exit status that tells a shell widget to run the command.
pub const RUN_STATUS: u8 = 0;

/// The exit status that tells a shell widget to put the command on the prompt.
pub const INSERT_STATUS: u8 = 10;

/// The exit status that tells a shell widget to leave the prompt alone.
pub const CANCEL_STATUS: u8 = 130;

/// The exit status of a subcommand that failed.
pub const FAILURE_STATUS: u8 = 1;

/// What a command line asks for.
#[derive(Debug)]
pub enum Task {
    /// Print the snippet for a shell.
    Init(Shell),
    /// Record a command and its exit status.
    Add { exit: i32, cmd: String },
    /// Open the picker with a query.
    Search { query: String },
    /// Print recent history.
    List,
    /// Import history.
    Import,
}

/// What a parsed command line asks for. A command or a query given as several words is one text.
pub fn task(cli: Cli) -> (task: Task)
    ensures
        match cli.command {
            Command::Init { shell } => task == Task::Init(shell),
            Command::Add { exit, cmd } => task matches Task::Add { exit: e, cmd: c } && e == exit
                && c@ == joined(texts(cmd@), " "@),
            Command::Search { query } => task matches Task::Search { query: q } && q@ == joined(
                texts(query@),
                " "@,
            ),
            Command::List => task is List,
            Command::Import => task is Import,
        },
{
    match cli.command {
        Command::Init { shell } => Task::Init(shell),
        Command::Add { exit, cmd } => Task::Add { exit, cmd: join(&cmd, " ") },
        Command::Search { query } => Task::Search { query: join(&query, " ") },
        Command::List => Task::List,
        Command::Import => Task::Import,
    }
}

/// What to print for a failure. Every message is prefixed once, here.
pub fn failure(message: &str) -> (line: String)
    ensures
        line@ == "padloper: "@ + message@ + "\n"@,
{
    let mut line = "padloper: ".to_owned();
    line.append(message);
    line.append("\n");
    line
}

/// What to record for a command that ran, given where and when. Runs on every prompt; a bare Enter
/// reaches here as an empty command and records nothing.
pub fn add(
    exit: i32,
    cmd: &str,
    cwd: Option<String>,
    now: i64,
    session: Option<String>,
) -> (row: Option<Observation>)
    ensures
        match row {
            Some(r) => !blank(cmd@) && r@ == (Sighting {
                cmd: trimmed(cmd@),
                cwd: optional(cwd),
                exit: Some(exit as i64),
                ts: now,
                session: optional(session),
            }),
            None => blank(cmd@),
        },
{
    let text = trim(cmd);
    proof {
        blank_text_trims_to_nothing(cmd@);
    }
    if text.as_str().is_empty() {
        return None;
    }
    Some(Observation { cmd: text, cwd, exit: Some(exit as i64), ts: now, session })
}

/// What the picker's outcome prints, and the status it exits with.
#[derive(Debug)]
pub struct Emission {
    pub text: Option<String>,
    pub status: u8,
}

/// What an outcome prints: the command on a line of its own, if there is one.
pub open spec fn emitted_text(outcome: OutcomeView) -> Option<Seq<char>> {
    match outcome {
        OutcomeView::Run(cmd) => Some(cmd + "\n"@),
        OutcomeView::Insert(cmd) => Some(cmd + "\n"@),
        OutcomeView::Cancelled => None,
    }
}

/// The status an outcome exits with.
pub open spec fn emitted_status(outcome: OutcomeView) -> u8 {
    match outcome {
        OutcomeView::Run(_) => RUN_STATUS,
        OutcomeView::Insert(_) => INSERT_STATUS,
        OutcomeView::Cancelled => CANCEL_STATUS,
    }
}

/// The protocol the shell widgets decode. Stdout is command data. The status is the action: 0 runs,
/// 10 inserts, and 130 cancels.
///
/// Keeping the action out of stdout means a command that looks like a marker stays ordinary text.
/// The three snippets in [`crate::shell`] switch on these numbers, so changing one means changing
/// all of them.
pub fn emit_search(outcome: Outcome) -> (emission: Emission)
    ensures
        optional(emission.text) == emitted_text(outcome@),
        emission.status == emitted_status(outcome@),
{
    match outcome {
        Outcome::Run(cmd) => {
            let mut text = cmd;
            text.append("\n");
            Emission { text: Some(text), status: RUN_STATUS }
        },
        Outcome::Insert(cmd) => {
            let mut text = cmd;
            text.append("\n");
            Emission { text: Some(text), status: INSERT_STATUS }
        },
        Outcome::Cancelled => Emission { text: None, status: CANCEL_STATUS },
    }
}

/// A row of the listing: time, exit, and cmd, tab separated. An imported row has no exit status, so
/// that field prints empty and the line keeps all three columns. Multiline commands print their
/// newlines, so a consumer that splits on lines sees more rows than it asked for.
pub open spec fn list_line(row: ListRowView, now: int) -> Seq<char> {
    let exit = match row.exit {
        Some(status) => integer(status as int),
        None => Seq::empty(),
    };
    age(now, row.ts as int) + "\t"@ + exit + "\t"@ + row.cmd + "\n"@
}

/// The next line of a listing, given how many have been written and whether writing has failed. A
/// closed pipe (list | head) ends the listing. Not a failure.
pub fn write_list(rows: &Vec<ListRow>, written: usize, closed: bool, now: i64) -> (line: Option<
    String,
>)
    ensures
        match line {
            Some(text) => !closed && written < rows@.len() && text@ == list_line(
                rows@[written as int]@,
                now as int,
            ),
            None => closed || written >= rows@.len(),
        },
{
    if closed || written >= rows.len() {
        return None;
    }
    let row = &rows[written];
    let mut line = relative_time(now, row.ts);
    line.append("\t");
    if let Some(status) = row.exit {
        let exit = integer_string(status);
        line.append(exit.as_str());
    }
    line.append("\t");
    line.append(row.cmd.as_str());
    line.append("\n");
    assert(line@ =~= list_line(row@, now as int));
    Some(line)
}

/// What an import prints.
pub fn import_summary(count: u64) -> (line: String)
    ensures
        line@ == "imported "@ + decimal(count as nat) + " commands\n"@,
{
    let mut line = "imported ".to_owned();
    let number = decimal_string(count);
    line.append(number.as_str());
    line.append(" commands\n");
    line
}

proof fn lemma_first_tab(field: Seq<char>, rest: Seq<char>)
    requires
        forall|i: int| 0 <= i < field.len() ==> #[trigger] field[i] != '\t',
    ensures
        position(field + "\t"@ + rest, '\t') == field.len(),
        (field + "\t"@ + rest).skip(field.len() as int + 1) == rest,
{
    reveal_strlit("\t");
    let line = field + "\t"@ + rest;
    assert forall|k: int| 0 <= k < field.len() implies #[trigger] line[k] != '\t' by {
        assert(line[k] == field[k]);
    }
    lemma_position(line, '\t', field.len() as int);
    assert(line.skip(field.len() as int + 1) =~= rest);
}

/// A line of the listing keeps its three columns: the text after the second tab is the command,
/// whatever the command holds.
pub proof fn a_list_line_keeps_its_columns(row: ListRowView, now: i64)
    ensures
        ({
            let line = list_line(row, now as int);
            let rest = line.skip(position(line, '\t') as int + 1);
            &&& line.take(position(line, '\t') as int) == age(now as int, row.ts as int)
            &&& rest.skip(position(rest, '\t') as int + 1) == row.cmd + "\n"@
        }),
{
    let time = age(now as int, row.ts as int);
    let exit = match row.exit {
        Some(status) => integer(status as int),
        None => Seq::empty(),
    };
    let line = list_line(row, now as int);
    let rest = exit + "\t"@ + (row.cmd + "\n"@);
    an_age_is_short_and_printable(now as int, row.ts as int);
    assert(line =~= time + "\t"@ + rest);
    lemma_first_tab(time, rest);
    assert(line.take(time.len() as int) =~= time);
    if let Some(status) = row.exit {
        lemma_integer_chars(status as int);
    }
    lemma_first_tab(exit, row.cmd + "\n"@);
}

/// A widget can tell from what was printed and the status alone what the user asked for, whatever
/// the command holds.
pub proof fn an_emission_can_be_decoded(a: OutcomeView, b: OutcomeView)
    requires
        emitted_text(a) == emitted_text(b),
        emitted_status(a) == emitted_status(b),
    ensures
        a == b,
{
    reveal_strlit("\n");
    match (a, b) {
        (OutcomeView::Run(x), OutcomeView::Run(y)) => {
            assert((x + "\n"@).drop_last() =~= x);
            assert((y + "\n"@).drop_last() =~= y);
        },
        (OutcomeView::Insert(x), OutcomeView::Insert(y)) => {
            assert((x + "\n"@).drop_last() =~= x);
            assert((y + "\n"@).drop_last() =~= y);
        },
        _ => {},
    }
}

/// A command to run or to insert is printed on a line of its own, as it is, and the status says
/// which of the two: 0 to run, 10 to insert. Cancelling prints nothing and exits with 130.
pub proof fn the_status_says_what_to_do_with_the_command(cmd: Seq<char>)
    ensures
        emitted_text(OutcomeView::Run(cmd)) == Some(cmd + seq!['\n']),
        emitted_text(OutcomeView::Insert(cmd)) == Some(cmd + seq!['\n']),
        emitted_text(OutcomeView::Cancelled) is None,
        emitted_status(OutcomeView::Run(cmd)) == 0,
        emitted_status(OutcomeView::Insert(cmd)) == 10,
        emitted_status(OutcomeView::Cancelled) == 130,
{
    reveal_strlit("\n");
    assert("\n"@ =~= seq!['\n']);
}

/// A line of the listing is the age, the exit status, and the command, with a tab between each two
/// and a line feed at the end. An unknown status leaves its column empty.
pub proof fn a_list_line_is_age_status_and_command(ts: i64, exit: i64, cmd: Seq<char>, now: int)
    ensures
        list_line(ListRowView { ts, exit: Some(exit), cmd }, now) == age(now, ts as int) + seq![
            '\t',
        ] + integer(exit as int) + seq!['\t'] + cmd + seq!['\n'],
        list_line(ListRowView { ts, exit: None, cmd }, now) == age(now, ts as int) + seq![
            '\t',
            '\t',
        ] + cmd + seq!['\n'],
{
    reveal_strlit("\t");
    reveal_strlit("\n");
    assert("\t"@ =~= seq!['\t']);
    assert("\n"@ =~= seq!['\n']);
    assert(list_line(ListRowView { ts, exit: None, cmd }, now) =~= age(now, ts as int) + seq![
        '\t',
        '\t',
    ] + cmd + seq!['\n']);
}

/// The listing holds 50 commands and the picker searches 10000, and the status of a failure is none
/// that a widget acts on.
pub proof fn limits_and_statuses()
    ensures
        crate::db::LIST_LIMIT == 50,
        SEARCH_LIMIT == 10000,
        FAILURE_STATUS == 1,
{
}

} // verus!
