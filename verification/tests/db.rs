//! Most of these pin down what a sighting does to the table. Its rules decide what history survives
//! an import, and none of them are visible from a row count.

use padloper::db::{data_dir_from, history_path, Db, DbError, Observation, StoredRow};

fn observation(
    cmd: &str,
    cwd: Option<&str>,
    exit: Option<i64>,
    ts: i64,
    session: Option<&str>,
) -> Observation {
    Observation {
        cmd: cmd.to_string(),
        cwd: cwd.map(str::to_string),
        exit,
        ts,
        session: session.map(str::to_string),
    }
}

fn stored(cmd: &str, ts: Option<i64>) -> StoredRow {
    StoredRow { cmd: cmd.to_string(), cwd: None, exit: None, ts, session: None }
}

fn listed(db: &Db) -> Vec<String> {
    db.list().expect("list").into_iter().map(|row| row.cmd).collect()
}

#[test]
fn data_directory_prefers_xdg_then_falls_back_to_home() {
    assert_eq!(
        data_dir_from(Some(b"/xdg".to_vec()), Some(b"/home".to_vec())).expect("xdg"),
        b"/xdg".to_vec()
    );
    assert_eq!(
        data_dir_from(Some(Vec::new()), Some(b"/home".to_vec())).expect("home"),
        b"/home/.local/share".to_vec()
    );
    assert!(matches!(data_dir_from(None, None), Err(DbError::NoHome)));
    assert!(matches!(data_dir_from(None, Some(Vec::new())), Err(DbError::NoHome)));
}

#[test]
fn the_history_file_sits_under_the_data_directory() {
    assert_eq!(history_path(&b"/data".to_vec()), b"/data/padloper/history.db".to_vec());
    assert_eq!(history_path(&b"/data/".to_vec()), b"/data/padloper/history.db".to_vec());
    assert_eq!(history_path(&Vec::new()), b"padloper/history.db".to_vec());
}

// These strings are the user-facing surface. Each has to say what failed and where.
#[test]
fn database_errors_name_the_operation_and_path() {
    assert_eq!(
        DbError::NoHome.to_string(),
        "cannot locate the data directory: XDG_DATA_HOME and HOME are unset"
    );
    assert_eq!(
        DbError::Open { path: "/tmp/history.db".into(), message: "bad file".into() }.to_string(),
        "cannot open /tmp/history.db: bad file"
    );
    assert_eq!(DbError::Query("bad query".into()).to_string(), "database error: bad query");
}

#[test]
fn inserting_the_same_command_updates_the_existing_row() {
    let mut db = Db::new();
    assert!(db.observe(observation("ls", Some("/a"), Some(0), 100, None)));
    assert!(db.observe(observation("ls", Some("/b"), Some(1), 200, Some("s"))));
    let rows = db.list().expect("list");
    assert_eq!(rows.len(), 1);
    assert_eq!(rows[0].ts, 200);
    assert_eq!(rows[0].exit, Some(1));
}

#[test]
fn recent_orders_by_timestamp_descending_and_honors_the_limit() {
    let mut db = Db::new();
    db.observe(observation("first", None, Some(0), 100, None));
    db.observe(observation("third", Some("/t"), Some(0), 300, None));
    db.observe(observation("second", None, Some(0), 200, None));
    let rows = db.recent(2).expect("recent");
    let cmds: Vec<&str> = rows.iter().map(|r| r.cmd.as_str()).collect();
    assert_eq!(cmds, ["third", "second"]);
    assert_eq!(rows[0].cwd.as_deref(), Some("/t"));
    assert_eq!(rows[1].cwd, None);
}

// Import must not walk history backwards: the stored `ls` is newer than the imported one, so it
// keeps its cwd, status, and time.
#[test]
fn batch_keeps_the_newer_observation_and_skips_empty_commands() {
    let mut db = Db::new();
    db.observe(observation("ls", Some("/new"), Some(0), 500, Some("new")));
    let imported = db.observe_all(vec![
        observation("ls", Some("/old"), Some(1), 100, Some("old")),
        observation("  ", None, None, 100, None),
        observation("pwd", None, None, 200, None),
    ]);
    assert_eq!(imported, 2);
    let rows = db.list().expect("list");
    assert_eq!(rows[0].cmd, "ls");
    assert_eq!(rows[0].ts, 500);
    assert_eq!(rows[0].exit, Some(0));
    assert_eq!(rows[1].cmd, "pwd");
}

// A partial update would leave a row describing two different runs, so this reads the columns that
// neither listing shows.
#[test]
fn a_newer_observation_replaces_the_complete_record() {
    let mut db = Db::new();
    db.observe(observation("ls", Some("/old"), Some(1), 100, Some("old")));
    db.observe(observation("ls", Some("/new"), Some(0), 200, Some("new")));

    let rows = db.into_rows();
    assert_eq!(rows.len(), 1);
    let row = &rows[0];
    assert_eq!(row.cmd, "ls");
    assert_eq!(
        (row.cwd.as_deref(), row.exit, row.ts, row.session.as_deref()),
        (Some("/new"), Some(0), Some(200), Some("new"))
    );
}

// Commands run inside one second share a timestamp. Accepting an equal time and moving the row to
// the end are what order them; refusing it would leave the repeat of `first` behind `second`.
#[test]
fn equal_timestamps_prefer_the_later_observation() {
    let mut db = Db::new();
    db.observe(observation("first", None, Some(0), 100, None));
    db.observe(observation("second", None, Some(0), 100, None));
    db.observe(observation("first", None, Some(2), 100, None));

    let rows = db.list().expect("list");
    assert_eq!(rows[0].cmd, "first");
    assert_eq!(rows[0].exit, Some(2));
    assert_eq!(rows[1].cmd, "second");
}

// 51 rows for a 50 row cap, so the test also shows which end is dropped: the newest 50 stay and the
// oldest falls off.
#[test]
fn list_returns_only_the_fifty_newest_rows() {
    let mut db = Db::new();
    for ts in 0..51 {
        db.observe(observation(&format!("cmd-{ts:02}"), None, None, ts, None));
    }

    let rows = db.list().expect("list");

    assert_eq!(rows.len(), 50);
    assert_eq!(rows.first().map(|row| row.cmd.as_str()), Some("cmd-50"));
    assert_eq!(rows.last().map(|row| row.cmd.as_str()), Some("cmd-01"));
}

#[test]
fn an_older_observation_is_refused() {
    let mut db = Db::new();
    assert!(db.observe(observation("ls", Some("/new"), Some(0), 500, Some("new"))));
    assert!(!db.observe(observation("ls", Some("/old"), Some(1), 499, Some("old"))));
    let rows = db.into_rows();
    assert_eq!(rows[0].cwd.as_deref(), Some("/new"));
    assert_eq!(rows[0].ts, Some(500));
}

// A null time in the column counts as older than anything.
#[test]
fn a_row_without_a_time_is_always_replaced() {
    let mut db = Db::from_rows(vec![stored("ls", None)]).expect("distinct");
    assert!(db.observe(observation("ls", None, Some(3), i64::MIN, None)));
    assert_eq!(db.list().expect("list")[0].exit, Some(3));
}

#[test]
fn a_row_without_a_time_fails_the_reads_that_reach_it() {
    let db = Db::from_rows(vec![stored("a", Some(1)), stored("b", None)]).expect("distinct");
    assert_eq!(db.recent(1).expect("only the newest").len(), 1);
    assert_eq!(
        db.recent(2).err().expect("must fail").to_string(),
        "database error: Invalid column type Null at index: 1, name: ts"
    );
    assert_eq!(
        db.list().err().expect("must fail").to_string(),
        "database error: Invalid column type Null at index: 0, name: ts"
    );
}

#[test]
fn rows_come_out_in_the_order_they_arrived() {
    let rows = vec![stored("a", Some(3)), stored("b", Some(1)), stored("c", Some(2))];
    let mut db = Db::from_rows(rows).expect("distinct");
    assert_eq!(listed(&db), ["a", "c", "b"]);
    db.observe(observation("a", None, None, 4, None));
    let cmds: Vec<String> = db.into_rows().into_iter().map(|row| row.cmd).collect();
    assert_eq!(cmds, ["b", "c", "a"]);
}

#[test]
fn two_rows_of_one_command_make_no_table() {
    assert!(Db::from_rows(vec![stored("a", Some(1)), stored("a", Some(2))]).is_none());
    assert!(Db::from_rows(Vec::new()).is_some());
}

#[test]
fn a_batch_trims_commands_and_counts_every_sighting() {
    let mut db = Db::new();
    let count = db.observe_all(vec![
        observation("  ls\n", None, None, 1, None),
        observation("ls", None, None, 2, None),
        observation("\u{2003}", None, None, 3, None),
    ]);
    assert_eq!(count, 2);
    let rows = db.list().expect("list");
    assert_eq!(rows.len(), 1);
    assert_eq!((rows[0].cmd.as_str(), rows[0].ts), ("ls", 2));
}

#[test]
fn recording_a_batch_twice_changes_nothing() {
    let batch = || {
        vec![
            observation("a", None, None, 5, None),
            observation("b", None, None, 5, None),
            observation("a", Some("/x"), None, 4, None),
            observation("c", None, None, 1, None),
        ]
    };
    let mut db = Db::from_rows(vec![stored("c", Some(2)), stored("d", Some(5))]).expect("rows");
    db.observe_all(batch());
    let once = listed(&db);
    db.observe_all(batch());
    assert_eq!(listed(&db), once);
    assert_eq!(once, ["b", "a", "d", "c"]);
}

#[test]
fn a_larger_limit_only_adds_rows() {
    let mut db = Db::new();
    for ts in 0..5 {
        db.observe(observation(&format!("cmd-{ts}"), None, None, ts / 2, None));
    }
    let all: Vec<String> =
        db.recent(usize::MAX).expect("all").into_iter().map(|row| row.cmd).collect();
    assert_eq!(all, ["cmd-4", "cmd-3", "cmd-2", "cmd-1", "cmd-0"]);
    for limit in 0..=5 {
        let some: Vec<String> =
            db.recent(limit).expect("some").into_iter().map(|row| row.cmd).collect();
        assert_eq!(some, all[..limit]);
    }
}

// The program reads only the row a sighting is about, so the answer must not need the others.
#[test]
fn whether_a_sighting_is_recorded_depends_on_its_own_row() {
    for ts in [99, 100, 101] {
        let mut whole =
            Db::from_rows(vec![stored("a", Some(500)), stored("ls", Some(100))]).expect("rows");
        let mut alone = Db::from_rows(vec![stored("ls", Some(100))]).expect("rows");
        let answer = whole.observe(observation("ls", None, None, ts, None));
        assert_eq!(answer, alone.observe(observation("ls", None, None, ts, None)));
        assert_eq!(answer, ts >= 100);
    }
}

// It also reads only the newest rows, in order of arrival, to list them.
#[test]
fn the_newest_rows_list_the_same_without_the_rest() {
    let times = [5, 1, 5, 3, 5, 2];
    let all: Vec<(String, i64)> =
        times.iter().enumerate().map(|(i, &ts)| (format!("cmd-{i}"), ts)).collect();
    let table = |rows: &[&(String, i64)]| {
        Db::from_rows(rows.iter().map(|(cmd, ts)| stored(cmd, Some(*ts))).collect()).expect("rows")
    };
    let whole = table(&all.iter().collect::<Vec<_>>());
    let part = table(&[&all[0], &all[2], &all[3], &all[4]]);
    let cmds = |db: &Db| -> Vec<String> {
        db.recent(4).expect("recent").into_iter().map(|row| row.cmd).collect()
    };
    assert_eq!(cmds(&whole), ["cmd-4", "cmd-2", "cmd-0", "cmd-3"]);
    assert_eq!(cmds(&part), cmds(&whole));
}

#[test]
fn a_batch_neither_loses_nor_invents_commands() {
    let mut db = Db::from_rows(vec![stored("a", Some(5)), stored("b", Some(1))]).expect("rows");
    db.observe_all(vec![
        observation("a", Some("/x"), None, 4, None),
        observation("b", Some("/y"), Some(1), 9, None),
        observation("b", Some("/z"), Some(2), 3, None),
        observation("c", None, None, 2, None),
    ]);
    let rows: Vec<(String, Option<i64>, Option<String>)> =
        db.into_rows().into_iter().map(|row| (row.cmd, row.ts, row.cwd)).collect();
    assert_eq!(
        rows,
        [
            ("a".to_string(), Some(5), None),
            ("b".to_string(), Some(9), Some("/y".to_string())),
            ("c".to_string(), Some(2), None),
        ]
    );
}

// What the file needs to be told: the rows recorded since it was read, once each, and none of those
// that were left alone or refused.
#[test]
fn only_refreshed_rows_are_written_back() {
    let loaded = || vec![stored("a", Some(10)), stored("b", Some(20)), stored("c", Some(30))];
    let fresh = |db: Db| -> Vec<(String, Option<i64>)> {
        db.into_fresh_rows().into_iter().map(|row| (row.cmd, row.ts)).collect()
    };
    assert!(fresh(Db::from_rows(loaded()).expect("distinct")).is_empty());

    let mut db = Db::from_rows(loaded()).expect("distinct");
    db.observe(observation("c", None, None, 29, None));
    db.observe(observation("d", None, None, 40, None));
    db.observe(observation("a", None, None, 41, None));
    db.observe(observation("d", None, None, 42, None));
    assert_eq!(fresh(db), [("a".to_string(), Some(41)), ("d".to_string(), Some(42))]);

    let mut db = Db::from_rows(loaded()).expect("distinct");
    db.observe_all(vec![
        observation("b", None, None, 50, None),
        observation(" ", None, None, 51, None),
        observation("a", None, None, 9, None),
    ]);
    assert_eq!(fresh(db), [("b".to_string(), Some(50))]);
}

// Writing the refreshed rows over the rows that were read gives the table in memory.
#[test]
fn refreshed_rows_bring_the_file_up_to_date() {
    let batch = || {
        vec![
            observation("b", None, Some(0), 50, None),
            observation("new", None, None, 60, None),
            observation("a", None, None, 5, None),
            observation("b", None, Some(1), 70, None),
        ]
    };
    let loaded = || vec![stored("a", Some(10)), stored("b", Some(20)), stored("c", Some(30))];
    let mut db = Db::from_rows(loaded()).expect("distinct");
    db.observe_all(batch());
    let mut file = loaded();
    for row in db.into_fresh_rows() {
        file.retain(|old| old.cmd != row.cmd);
        file.push(row);
    }
    let mut whole = Db::from_rows(loaded()).expect("distinct");
    whole.observe_all(batch());
    let text = |rows: Vec<StoredRow>| -> Vec<(String, Option<i64>, Option<i64>)> {
        rows.into_iter().map(|row| (row.cmd, row.ts, row.exit)).collect()
    };
    assert_eq!(text(file), text(whole.into_rows()));
}
