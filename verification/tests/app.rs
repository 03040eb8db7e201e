//! What subcommands record, print, and exit with.

use padloper::app::{add, emit_search, failure, import_summary, task, write_list, Task};
use padloper::cli::{Cli, Command};
use padloper::db::ListRow;
use padloper::shell::Shell;
use padloper::tui::Outcome;

/// Stands in for `list | head -1`: takes one line, then reports the broken pipe every later write
/// would get.
struct OneLineWriter {
    bytes: Vec<u8>,
    closed: bool,
}

impl OneLineWriter {
    fn write(&mut self, line: &str) -> bool {
        if self.closed {
            return false;
        }
        self.bytes.extend_from_slice(line.as_bytes());
        self.closed = line.contains('\n');
        true
    }
}

// The insert case carries what could be taken for an action marker. It has to survive as ordinary
// text.
#[test]
fn search_actions_keep_control_out_of_command_text() {
    let emission = emit_search(Outcome::Run("echo run".into()));
    assert_eq!(emission.status, 0);
    assert_eq!(emission.text.as_deref(), Some("echo run\n"));

    let emission = emit_search(Outcome::Insert("__padloper_run__:echo edit".into()));
    assert_eq!(emission.status, 10);
    assert_eq!(emission.text.as_deref(), Some("__padloper_run__:echo edit\n"));

    let emission = emit_search(Outcome::Cancelled);
    assert_eq!(emission.status, 130);
    assert!(emission.text.is_none());
}

// Two things at once. An imported row has no exit status, so that field prints empty and the line
// keeps all three columns (hence the two tabs in a row). And "second" never appears, because the
// broken pipe ends the listing instead of failing the command.
#[test]
fn list_formats_missing_status_and_stops_on_a_closed_pipe() {
    let rows = vec![
        ListRow { ts: 100, exit: None, cmd: "first".into() },
        ListRow { ts: 50, exit: Some(1), cmd: "second".into() },
    ];
    let mut out = OneLineWriter { bytes: Vec::new(), closed: false };

    let mut written = 0;
    let mut failed = false;
    while let Some(line) = write_list(&rows, written, failed, 100) {
        failed = !out.write(&line);
        written += 1;
    }

    assert_eq!(out.bytes, b"now\t\tfirst\n");
    assert_eq!(written, 2);
}

#[test]
fn every_row_of_an_open_listing_is_written() {
    let rows = vec![
        ListRow { ts: 100, exit: Some(0), cmd: "a\nb".into() },
        ListRow { ts: 40, exit: Some(-1), cmd: "c".into() },
    ];
    assert_eq!(write_list(&rows, 0, false, 100).as_deref(), Some("now\t0\ta\nb\n"));
    assert_eq!(write_list(&rows, 1, false, 100).as_deref(), Some("1m\t-1\tc\n"));
    assert_eq!(write_list(&rows, 2, false, 100), None);
    assert_eq!(write_list(&rows, 0, true, 100), None);
}

#[test]
fn adding_trims_and_skips_blank_commands() {
    let row = add(3, "  cargo build\n", Some("/x".into()), 17, Some("s".into())).expect("row");
    assert_eq!(row.cmd, "cargo build");
    assert_eq!(row.cwd.as_deref(), Some("/x"));
    assert_eq!((row.exit, row.ts), (Some(3), 17));
    assert_eq!(row.session.as_deref(), Some("s"));
    assert!(add(0, "  ", None, 17, None).is_none());
    assert!(add(0, "", None, 17, None).is_none());
}

#[test]
fn words_are_joined_into_one_command() {
    let words = |words: &[&str]| words.iter().map(|w| w.to_string()).collect::<Vec<_>>();
    let cli = Cli { command: Command::Add { exit: 1, cmd: words(&["grep", "-r", "x"]) } };
    assert!(matches!(task(cli), Task::Add { exit: 1, cmd } if cmd == "grep -r x"));
    let cli = Cli { command: Command::Search { query: words(&["-n", "foo"]) } };
    assert!(matches!(task(cli), Task::Search { query } if query == "-n foo"));
    let cli = Cli { command: Command::Search { query: Vec::new() } };
    assert!(matches!(task(cli), Task::Search { query } if query.is_empty()));
    let cli = Cli { command: Command::Init { shell: Shell::Zsh } };
    assert!(matches!(task(cli), Task::Init(Shell::Zsh)));
    assert!(matches!(task(Cli { command: Command::List }), Task::List));
    assert!(matches!(task(Cli { command: Command::Import }), Task::Import));
}

#[test]
fn messages_are_prefixed_once() {
    assert_eq!(failure("nothing to import"), "padloper: nothing to import\n");
    assert_eq!(import_summary(2), "imported 2 commands\n");
    assert_eq!(import_summary(0), "imported 0 commands\n");
}

#[test]
fn the_command_follows_the_second_tab() {
    for cmd in ["ls", "a\tb", "\t", "x\ny\tz"] {
        for exit in [None, Some(0), Some(-7)] {
            let rows = vec![ListRow { ts: 0, exit, cmd: cmd.into() }];
            let line = write_list(&rows, 0, false, 7200).expect("line");
            let fields: Vec<&str> = line.splitn(3, '\t').collect();
            assert_eq!(fields[0], "2h");
            assert_eq!(fields[1], exit.map(|e| e.to_string()).unwrap_or_default());
            assert_eq!(fields[2], format!("{cmd}\n"));
        }
    }
}
