//! The parsers run against real history files exactly once per machine, and a bad one loses history
//! quietly. These fix each format on samples small enough to read, plus the malformed input each
//! parser must reject.

use padloper::db::{Db, DbError, Observation};
use padloper::import::atuin::{read_atuin, AtuinRow};
use padloper::import::bash::parse_bash;
use padloper::import::fish::{parse_fish, unescape_fish};
use padloper::import::zsh::{parse_zsh, zsh_header};
use padloper::import::{
    detect_format, locate_source, parse_text, read_decoded, read_text, run, Environment, Format,
    Found, ImportError, Source,
};

fn commands(rows: &[Observation]) -> Vec<(&str, i64)> {
    rows.iter().map(|row| (row.cmd.as_str(), row.ts)).collect()
}

fn chars(text: &str) -> Vec<char> {
    text.chars().collect()
}

fn environment(
    xdg: Option<&str>,
    home: Option<&str>,
    histfile: Option<&str>,
    shell: Option<&str>,
) -> Environment {
    let bytes = |text: Option<&str>| text.map(|t| t.as_bytes().to_vec());
    Environment {
        xdg_data_home: bytes(xdg),
        home: bytes(home),
        histfile: bytes(histfile),
        shell: bytes(shell),
    }
}

const NOTHING: Found = Found { atuin: false, fish: false, bash: false };
const EVERYTHING: Found = Found { atuin: true, fish: true, bash: true };

fn text_source(source: Result<Source, ImportError>) -> (String, Format) {
    match source {
        Ok(Source::Text { path, format }) => (String::from_utf8(path).expect("utf8"), format),
        other => panic!("expected a text source, got {other:?}"),
    }
}

#[test]
fn detects_structured_history_formats() {
    assert_eq!(detect_format("#100\nls\n"), Format::Bash);
    assert_eq!(detect_format(": 100:0;ls\n"), Format::Zsh);
    assert_eq!(detect_format("- cmd: ls\n  when: 100\n"), Format::Fish);
    // A blank file and an unmarked line both land on Bash, the only parser that accepts anything.
    assert_eq!(detect_format("\n  \n"), Format::Bash);
    assert_eq!(detect_format("plain\n"), Format::Bash);
}

// "plain" precedes the first timestamp and stands alone; the two lines after #100 are one command,
// because only a timestamp ends an entry.
#[test]
fn bash_timestamps_delimit_multiline_commands() {
    let rows = parse_bash("plain\n#100\nprintf foo\nbar\n#200\npwd\n", 999);
    assert_eq!(commands(&rows), [("plain", 999), ("printf foo\nbar", 100), ("pwd", 200)]);
}

#[test]
fn bash_without_timestamps_keeps_one_command_per_line() {
    let rows = parse_bash("ls\npwd\n", 999);
    assert_eq!(commands(&rows), [("ls", 999), ("pwd", 999)]);
}

// Three near misses that all stay commands: a bare "#", a comment, and a number one past i64. The
// last is why the number is checked rather than the digits alone. The two real timestamps open
// entries that never get a command, and empty entries are dropped.
#[test]
fn bash_rejects_timestamp_lookalikes_and_drops_empty_entries() {
    let rows = parse_bash("#\n#nope\n#9223372036854775808\n#100\n#200\npwd\n", 999);
    assert_eq!(
        commands(&rows),
        [("#", 999), ("#nope", 999), ("#9223372036854775808", 999), ("pwd", 200)]
    );
}

// The trailing backslash is zsh's own escaped newline, so it stays in the command text along with
// the newline it escapes.
#[test]
fn zsh_extended_history_keeps_metadata_and_continuations() {
    let rows = parse_zsh(": 100:2;printf foo\\\nbar\n: 200:0;pwd\n").expect("parse");
    assert_eq!(commands(&rows), [("printf foo\\\nbar", 100), ("pwd", 200)]);
}

#[test]
fn zsh_rejects_mixed_or_malformed_records() {
    // A plain line before any header: the file is not what detection said it was, and the rest
    // cannot be trusted either.
    assert!(parse_zsh("plain\n: 100:0;ls\n").is_err());
    // Header shape with a non-numeric timestamp.
    assert!(parse_zsh(": nope:0;ls\n").is_err());
    // Non-numeric duration.
    assert!(parse_zsh(": 100:nope;ls\n").is_err());
    // No semicolon, so there is no command field at all.
    assert!(parse_zsh(": 100:0ls\n").is_err());
    // A blank leading line is not a mixed-format file. Zsh writes one after a partial write, and it
    // must not fail the import.
    assert_eq!(commands(&parse_zsh("\n: 100:0;ls\n").expect("blank prefix")), [("ls", 100)]);
}

// Both escapes in one command, followed by the `paths` block that has to be skipped without ending
// the entry.
#[test]
fn fish_history_decodes_commands_and_ignores_metadata() {
    let rows = parse_fish(
        "- cmd: printf foo\\nbar\\\\baz\n  when: 100\n  paths:\n    - /tmp\n",
        999,
    )
    .expect("parse");
    assert_eq!(commands(&rows), [("printf foo\nbar\\baz", 100)]);
}

#[test]
fn fish_rejects_malformed_records() {
    // Metadata with no command to attach it to.
    assert!(parse_fish("  when: 100\n", 999).is_err());
    // An escape fish does not write. Treating it as a literal would import a command that differs
    // from the one that ran.
    assert!(parse_fish("- cmd: bad\\q\n", 999).is_err());
    // A backslash at end of line, so the escape has nothing to escape.
    assert!(parse_fish("- cmd: bad\\\n", 999).is_err());
    // A `when` that is not a number.
    assert!(parse_fish("- cmd: ls\n  when: nope\n", 999).is_err());
    // Not fish history at all.
    assert!(parse_fish("plain\n", 999).is_err());
}

// A record whose `when` is missing still imports, dated now. Losing the command would be worse than
// dating it wrong.
#[test]
fn fish_uses_the_fallback_time_and_keeps_multiple_records() {
    let rows = parse_fish("- cmd: first\n- cmd: second\n  when: 200\n", 999).expect("parse");
    assert_eq!(commands(&rows), [("first", 999), ("second", 200)]);
}

// Import failures point at a file the user can go look at, so every variant has to carry its path
// into the message. Db defers to DbError rather than adding a second prefix.
#[test]
fn import_errors_keep_their_source() {
    assert_eq!(
        ImportError::Read { path: "/tmp/hist".into(), message: "denied".into() }.to_string(),
        "cannot read /tmp/hist: denied"
    );
    assert_eq!(
        ImportError::Format { path: "/tmp/hist".into(), message: "bad record".into() }.to_string(),
        "cannot parse /tmp/hist: bad record"
    );
    assert_eq!(
        ImportError::Atuin { path: "/tmp/atuin.db".into(), message: "bad schema".into() }
            .to_string(),
        "cannot read the atuin db at /tmp/atuin.db: bad schema"
    );
    assert_eq!(
        ImportError::Db(DbError::Query("stopped".into())).to_string(),
        "database error: stopped"
    );
    assert_eq!(
        ImportError::NoSource.to_string(),
        "nothing to import: no atuin db and no history file"
    );
}

// The two ways reading a history file fails, told apart by variant so the message says which. The
// 0xff byte is not valid UTF-8: history files hold arbitrary bytes, and the lossy decode has to get
// past it and leave the parser to reject the record on its own terms.
#[test]
fn text_reader_reports_read_and_format_errors() {
    let missing = "/somewhere/missing";
    assert!(matches!(
        read_text(missing, Err("no such file".into()), Format::Detect, 999),
        Err(ImportError::Read { path, .. }) if path == missing
    ));

    let malformed = "/somewhere/fish_history";
    assert!(matches!(
        read_text(malformed, Ok(b"- cmd: bad\\q\xff\n".to_vec()), Format::Fish, 999),
        Err(ImportError::Format { path, .. }) if path == malformed
    ));
}

fn atuin_row(
    id: &str,
    timestamp: i64,
    exit: i64,
    command: &str,
    cwd: &str,
    session: &str,
    deleted: bool,
) -> AtuinRow {
    AtuinRow {
        id: Some(id.into()),
        timestamp: Some(timestamp),
        exit: Some(exit),
        command: Some(command.into()),
        cwd: Some(cwd.into()),
        session: Some(session.into()),
        deleted,
    }
}

// Rows come out of order to prove that they are sorted by timestamp, and the nanosecond timestamps
// come back as 1 and 2 seconds. A file that is not an atuin db has to fail, not import as nothing.
#[test]
fn atuin_reader_preserves_metadata_and_reports_bad_databases() {
    let path = "/data/atuin.db";
    let table = vec![
        atuin_row("b", 2000000000, 2, "second", "/b", "s2", false),
        atuin_row("a", 1000000000, 1, "first", "/a", "s1", false),
        atuin_row("x", 3000000000, 0, "deleted", "/x", "sx", true),
    ];

    let rows = read_atuin(path, Ok(table)).expect("read atuin");
    assert_eq!(commands(&rows), [("first", 1), ("second", 2)]);
    assert_eq!(rows[0].cwd.as_deref(), Some("/a"));
    assert_eq!(rows[0].exit, Some(1));
    assert_eq!(rows[0].session.as_deref(), Some("s1"));

    let malformed = "/data/malformed.db";
    assert!(matches!(
        read_atuin(malformed, Err("no such table: history".into())),
        Err(ImportError::Atuin { path, .. }) if path == malformed
    ));
}

#[test]
fn atuin_ties_are_read_by_id_and_missing_values_fail() {
    let table = vec![
        atuin_row("b", 5, 0, "third", "/", "s", false),
        atuin_row("ab", 5, 0, "second", "/", "s", false),
        AtuinRow { id: None, ..atuin_row("", 5, 0, "first", "/", "s", false) },
        atuin_row("z", -1_500_000_000, 0, "oldest", "/", "s", false),
    ];
    let rows = read_atuin("p", Ok(table)).expect("read");
    assert_eq!(commands(&rows), [("oldest", -1), ("first", 0), ("second", 0), ("third", 0)]);

    let no_command =
        vec![AtuinRow { command: None, ..atuin_row("a", 1, 0, "", "/", "s", false) }];
    assert_eq!(
        read_atuin("p", Ok(no_command)).err().expect("must fail").to_string(),
        "cannot read the atuin db at p: Invalid column type Null at index: 0, name: command"
    );
    let no_time =
        vec![AtuinRow { timestamp: None, ..atuin_row("a", 1, 0, "ls", "/", "s", false) }];
    assert_eq!(
        read_atuin("p", Ok(no_time)).err().expect("must fail").to_string(),
        "cannot read the atuin db at p: Invalid column type Null at index: 3, \
         name: timestamp / 1000000000"
    );
    let deleted =
        vec![AtuinRow { command: None, ..atuin_row("a", 1, 0, "", "/", "s", true) }];
    assert!(read_atuin("p", Ok(deleted)).expect("tombstones are skipped").is_empty());
}

#[test]
fn faults_name_the_first_line_that_has_one() {
    assert_eq!(
        parse_zsh("\nplain\n: 100:0;ls\n").err().expect("mixed"),
        "line 2 mixes plain and Zsh extended history"
    );
    assert_eq!(
        parse_zsh(": 100:0;ls\nmore\n: nope\nplain\n").err().expect("invalid"),
        "line 3 has an invalid Zsh record"
    );
    assert_eq!(
        parse_fish("\n  when: 100\n", 9).err().expect("early"),
        "line 2 has metadata before a command"
    );
    assert_eq!(
        parse_fish("- cmd: a\\q\n", 9).err().expect("escape"),
        "line 1 has an unsupported Fish escape"
    );
    assert_eq!(
        parse_fish("- cmd: a\\\n", 9).err().expect("incomplete"),
        "line 1 ends with an incomplete Fish escape"
    );
    assert_eq!(
        parse_fish("- cmd: a\n  when: 1x\n", 9).err().expect("time"),
        "line 2 has an invalid Fish timestamp"
    );
    assert_eq!(
        parse_fish("- cmd: a\n  when: 1\nplain\n", 9).err().expect("record"),
        "line 3 has an invalid Fish record"
    );
}

#[test]
fn fish_times_take_the_last_line_and_any_sign() {
    let rows = parse_fish("- cmd: a\n  when: 1\n  when: -5\n- cmd: b\n  when: +7\n", 9).expect("ok");
    assert_eq!(commands(&rows), [("a", -5), ("b", 7)]);
}

#[test]
fn blank_commands_are_dropped_and_the_others_keep_their_blanks() {
    assert_eq!(commands(&parse_bash("  ls \n \t\n", 9)), [("  ls ", 9)]);
    assert_eq!(commands(&parse_zsh(": 1:0; \n: 2:0; x\n").expect("ok")), [(" x", 2)]);
    assert_eq!(commands(&parse_fish("- cmd: \n- cmd:  y\n", 9).expect("ok")), [(" y", 9)]);
}

#[test]
fn lines_may_end_in_a_carriage_return() {
    assert_eq!(commands(&parse_bash("ls\r\npwd\r\n", 9)), [("ls", 9), ("pwd", 9)]);
    assert_eq!(commands(&parse_bash("ls\r", 9)), [("ls\r", 9)]);
}

#[test]
fn an_escaped_command_comes_back() {
    for command in ["", "plain", "a\nb", "c:\\dir\\n", "\\", "\n\\\n"] {
        let mut written = String::new();
        for c in command.chars() {
            match c {
                '\n' => written.push_str("\\n"),
                '\\' => written.push_str("\\\\"),
                c => written.push(c),
            }
        }
        assert_eq!(unescape_fish(&chars(&written)).expect("escape"), command);
    }
}

#[test]
fn a_written_fish_history_comes_back() {
    let rows = parse_fish("- cmd: a\\\\b\n  when: -3\n- cmd: c\\nd\n  when: 7\n", 9).expect("ok");
    assert_eq!(commands(&rows), [("a\\b", -3), ("c\nd", 7)]);
}

#[test]
fn a_written_zsh_header_comes_back() {
    for command in ["ls", "a;b:c", "", ": 1:2;x"] {
        let line = chars(&format!(": 17:4;{command}"));
        let (ts, rest) = zsh_header(&line).expect("header");
        assert_eq!((ts, rest.iter().collect::<String>()), (17, command.to_string()));
    }
    assert!(zsh_header(&chars(": 9223372036854775808:0;ls")).is_none());
    assert!(zsh_header(&chars(": 1:99999999999999999999999;ls")).is_some());
    assert!(zsh_header(&chars(": -1:0;ls")).is_none());
}

#[test]
fn each_format_has_its_parser() {
    assert_eq!(commands(&parse_text("- cmd: x\n", Format::Bash, 9).expect("bash")), [("- cmd: x", 9)]);
    assert_eq!(commands(&parse_text("- cmd: x\n", Format::Fish, 9).expect("fish")), [("x", 9)]);
    assert!(parse_text("- cmd: x\n", Format::Zsh, 9).is_err());
    assert_eq!(
        commands(&read_decoded("p", ": 5:0;x\n", Format::Detect, 9).expect("zsh")),
        [("x", 5)]
    );
}

#[test]
fn bytes_that_are_not_text_are_replaced() {
    let rows = read_text("p", Ok(b"a\xffb\n\xc3\xa9\n".to_vec()), Format::Detect, 9).expect("ok");
    assert_eq!(commands(&rows), [("a\u{fffd}b", 9), ("\u{e9}", 9)]);
}

#[test]
fn atuin_outranks_everything() {
    let env = environment(Some("/data"), Some("/home/u"), Some("/hist"), Some("/bin/fish"));
    match locate_source(&env, EVERYTHING) {
        Ok(Source::Atuin(path)) => assert_eq!(path, b"/data/atuin/history.db".to_vec()),
        other => panic!("expected atuin, got {other:?}"),
    }
}

// With no atuin db, an explicit HISTFILE wins over the history the shell would have been asked for,
// and wins whether or not it is there.
#[test]
fn histfile_beats_the_shell_default() {
    let env = environment(Some("/data"), Some("/home/u"), Some("/chosen"), Some("/bin/fish"));
    for found in [NOTHING, Found { atuin: false, ..EVERYTHING }] {
        assert_eq!(text_source(locate_source(&env, found)), ("/chosen".into(), Format::Detect));
    }
}

#[test]
fn import_discovers_fish_history_for_the_current_shell() {
    let env = environment(Some("/data"), None, None, Some("/bin/fish"));
    let found = Found { fish: true, ..NOTHING };
    assert_eq!(
        text_source(locate_source(&env, found)),
        ("/data/fish/fish_history".into(), Format::Fish)
    );
    assert!(matches!(locate_source(&env, NOTHING), Err(ImportError::NoSource)));
}

// HISTFILE set to "" counts as unset, which is how an exported but empty variable behaves. The bash
// default takes over from there, also for shells nobody knows.
#[test]
fn bash_uses_its_default_history_when_histfile_is_empty() {
    let found = Found { bash: true, ..NOTHING };
    for shell in [Some("/bin/bash"), None, Some(""), Some("/bin/tcsh"), Some("/"), Some("/bin/..")] {
        let env = environment(None, Some("/home/u"), Some(""), shell);
        assert_eq!(
            text_source(locate_source(&env, found)),
            ("/home/u/.bash_history".into(), Format::Bash)
        );
        assert!(matches!(locate_source(&env, NOTHING), Err(ImportError::NoSource)));
    }
}

// Zsh has no default history path. A ~/.bash_history sitting there is not this user's zsh history,
// so import asks for HISTFILE instead of taking it.
#[test]
fn zsh_does_not_guess_a_default_history_file() {
    for shell in ["/bin/zsh", "zsh", "/usr/bin/zsh/", "/usr/bin/zsh/."] {
        let env = environment(None, Some("/home/u"), None, Some(shell));
        let found = Found { atuin: false, ..EVERYTHING };
        assert!(matches!(locate_source(&env, found), Err(ImportError::NoSource)));
    }
}

#[test]
fn import_with_no_source_fails() {
    let env = environment(Some("/data"), None, None, None);
    assert!(matches!(
        locate_source(&env, Found { bash: true, ..NOTHING }),
        Err(ImportError::NoSource)
    ));
}

#[test]
fn import_merges_and_is_idempotent() {
    let text = "#200\npwd\n#100\nls -la\n#200\nwhoami\n";
    let history = || read_decoded("hist", text, Format::Detect, 999);
    let mut db = Db::new();
    assert_eq!(run(&mut db, history()).expect("import"), 3);
    let listed = |db: &Db| -> Vec<String> {
        db.list().expect("list").into_iter().map(|row| row.cmd).collect()
    };
    // Newest first, and the file's own order within a second.
    assert_eq!(listed(&db), ["whoami", "pwd", "ls -la"]);
    assert_eq!(run(&mut db, history()).expect("import"), 3);
    assert_eq!(listed(&db), ["whoami", "pwd", "ls -la"]);
}

#[test]
fn malformed_history_imports_nothing() {
    let mut db = Db::new();
    db.observe(Observation { cmd: "ls".into(), cwd: None, exit: None, ts: 1, session: None });
    let history = read_decoded("hist", "- cmd: good\n- cmd: bad\\q\n", Format::Detect, 999);
    let error = run(&mut db, history).err().expect("must fail");
    assert_eq!(error.to_string(), "cannot parse hist: line 2 has an unsupported Fish escape");
    assert_eq!(db.into_rows().len(), 1);
}

#[test]
fn a_written_bash_history_comes_back() {
    let rows = parse_bash("#5\nfor x; do\n  y\ndone\n#6\n#7\nls\n", 9);
    assert_eq!(commands(&rows), [("for x; do\n  y\ndone", 5), ("ls", 7)]);
}

#[test]
fn a_written_zsh_history_comes_back() {
    let rows = parse_zsh(": 5:1;for x; do\\\n  y\\\n\\\ndone\n: 6:0;\n: 7:2;ls\n").expect("parse");
    assert_eq!(commands(&rows), [("for x; do\\\n  y\\\n\\\ndone", 5), ("ls", 7)]);
}
