//! The history database. One row per distinct command; running a command again refreshes its row
//! instead of adding one.
//!
//! So the command text is the identity, and cwd, exit, ts, and session all describe its most
//! recent run. There is no execution log. That is what keeps the file small and the search fast,
//! and it is why history cannot answer "how often" or "where else did I run this".
//!
//! [`Db`] is the history table in memory. The program around the library reads rows out of the
//! database file, asks `Db` what a sighting does to them, and writes the refreshed rows back in the
//! transaction it read in. [`crate::table`] says what the table means and what holds of it.

use vstd::hash_map::StringHashMap;
use vstd::prelude::*;

use crate::order::{arrange, indices, IndexOrder};
use crate::paths::{assigned, extend, extended, optional_path};
use crate::table::{
    a_batch_records_no_blank_command, all_refreshed, distinct, lemma_without_absent,
    lemma_without_last, listed_before, newer_row, newest, newest_lists_every_row_once,
    newest_order, observed, outdated, record, recorded, refreshed, replayed, without, Row,
    Sighting,
};
use crate::text::{blank_text_trims_to_nothing, copy_optional, optional, trim, trimmed};

verus! {

/// How many commands `padloper list` prints.
pub const LIST_LIMIT: usize = 50;

/// A row as the picker needs it: the text to match, the age to show, and the directory its last
/// run happened in for the dir-only scope.
pub struct HistoryRow {
    pub cmd: String,
    /// Unix seconds.
    pub ts: i64,
    /// None for imported rows, which no dir-only search can match.
    pub cwd: Option<String>,
}

/// What a [`HistoryRow`] holds.
#[verifier::ext_equal]
pub struct HistoryRowView {
    pub cmd: Seq<char>,
    pub ts: i64,
    pub cwd: Option<Seq<char>>,
}

impl View for HistoryRow {
    type V = HistoryRowView;

    open spec fn view(&self) -> HistoryRowView {
        HistoryRowView { cmd: self.cmd@, ts: self.ts, cwd: optional(self.cwd) }
    }
}

/// A row as `padloper list` prints it.
pub struct ListRow {
    /// Unix seconds.
    pub ts: i64,
    /// None for imported rows, which carry no status.
    pub exit: Option<i64>,
    pub cmd: String,
}

/// What a [`ListRow`] holds.
#[verifier::ext_equal]
pub struct ListRowView {
    pub ts: i64,
    pub exit: Option<i64>,
    pub cmd: Seq<char>,
}

impl View for ListRow {
    type V = ListRowView;

    open spec fn view(&self) -> ListRowView {
        ListRowView { ts: self.ts, exit: self.exit, cmd: self.cmd@ }
    }
}

/// One sighting of a command. Everything but `cmd` and `ts` is optional because imported history
/// rarely records it.
pub struct Observation {
    pub cmd: String,
    pub cwd: Option<String>,
    pub exit: Option<i64>,
    /// Unix seconds.
    pub ts: i64,
    pub session: Option<String>,
}

impl View for Observation {
    type V = Sighting;

    open spec fn view(&self) -> Sighting {
        Sighting {
            cmd: self.cmd@,
            cwd: optional(self.cwd),
            exit: self.exit,
            ts: self.ts,
            session: optional(self.session),
        }
    }
}

/// A row of the history table with all its columns.
pub struct StoredRow {
    pub cmd: String,
    pub cwd: Option<String>,
    pub exit: Option<i64>,
    /// Unix seconds. The column admits null, which padloper itself never writes.
    pub ts: Option<i64>,
    pub session: Option<String>,
}

impl View for StoredRow {
    type V = Row;

    open spec fn view(&self) -> Row {
        Row {
            cmd: self.cmd@,
            cwd: optional(self.cwd),
            exit: self.exit,
            ts: self.ts,
            session: optional(self.session),
        }
    }
}

/// What the rows of a vector hold.
pub open spec fn stored(rows: Seq<StoredRow>) -> Seq<Row> {
    rows.map_values(|row: StoredRow| row@)
}

/// What the observations of a vector hold.
pub open spec fn sightings(rows: Seq<Observation>) -> Seq<Sighting> {
    rows.map_values(|row: Observation| row@)
}

#[derive(Debug)]
pub enum DbError {
    /// No data directory to put the db in.
    NoHome,
    /// The file could not be created, opened, or brought up to schema.
    Open { path: String, message: String },
    /// A statement failed against an open db.
    Query(String),
}

impl DbError {
    /// The message shown to the user. Each says what failed and where.
    pub open spec fn text(&self) -> Seq<char> {
        match self {
            DbError::NoHome => {
                "cannot locate the data directory: XDG_DATA_HOME and HOME are unset"@
            },
            DbError::Open { path, message } => "cannot open "@ + path@ + ": "@ + message@,
            DbError::Query(message) => "database error: "@ + message@,
        }
    }

    /// The message shown to the user.
    pub fn to_string(&self) -> (out: String)
        ensures
            out@ == self.text(),
    {
        match self {
            DbError::NoHome => {
                "cannot locate the data directory: XDG_DATA_HOME and HOME are unset".to_owned()
            },
            DbError::Open { path, message } => {
                let mut out = "cannot open ".to_owned();
                out.append(path.as_str());
                out.append(": ");
                out.append(message.as_str());
                out
            },
            DbError::Query(message) => {
                let mut out = "database error: ".to_owned();
                out.append(message.as_str());
                out
            },
        }
    }
}

// ---------------------------------------------------------------------------------------------
// Where the files are
// ---------------------------------------------------------------------------------------------

/// The XDG data root, `~/.local/share` by default, from the values of `XDG_DATA_HOME` and `HOME`.
pub open spec fn data_root(xdg: Option<Seq<u8>>, home: Option<Seq<u8>>) -> Option<Seq<u8>> {
    if assigned(xdg) {
        xdg
    } else if assigned(home) {
        Some(extended(extended(home->0, ".local"@), "share"@))
    } else {
        None
    }
}

/// The XDG data root from the values of `XDG_DATA_HOME` and `HOME`. The import source search uses
/// this too, so atuin and fish history are found the same way.
///
/// An empty variable counts as unset, which is what an exported but never-assigned `HISTFILE` or
/// `XDG_DATA_HOME` looks like.
pub fn data_dir_from(xdg: Option<Vec<u8>>, home: Option<Vec<u8>>) -> (dir: Result<Vec<u8>, DbError>)
    ensures
        match dir {
            Ok(path) => data_root(optional_path(xdg), optional_path(home)) == Some(path@),
            Err(error) => error is NoHome && data_root(
                optional_path(xdg),
                optional_path(home),
            ) is None,
        },
{
    if let Some(dir) = xdg {
        if dir.len() > 0 {
            return Ok(dir);
        }
    }
    match home {
        Some(home) => {
            if home.len() > 0 {
                let local = extend(home.as_slice(), ".local");
                Ok(extend(local.as_slice(), "share"))
            } else {
                Err(DbError::NoHome)
            }
        },
        None => Err(DbError::NoHome),
    }
}

/// An empty variable counts as unset.
pub proof fn an_empty_variable_counts_as_unset(xdg: Option<Seq<u8>>, home: Option<Seq<u8>>)
    ensures
        data_root(Some(Seq::empty()), home) == data_root(None, home),
        data_root(xdg, Some(Seq::empty())) == data_root(xdg, None),
{
}

/// Where the history database is, under the data root.
pub fn history_path(data_dir: &Vec<u8>) -> (path: Vec<u8>)
    ensures
        path@ == extended(extended(data_dir@, "padloper"@), "history.db"@),
{
    let dir = extend(data_dir.as_slice(), "padloper");
    extend(dir.as_slice(), "history.db")
}

// ---------------------------------------------------------------------------------------------
// The table
// ---------------------------------------------------------------------------------------------

/// The history table. Its view is the sequence of rows in order of arrival.
///
/// A refreshed row moves to the end by leaving an empty slot behind, so recording costs one
/// lookup however long the table is.
pub struct Db {
    slots: Vec<Option<StoredRow>>,
    /// The slot of each stored command.
    index: StringHashMap<usize>,
    /// How many slots were filled from the file. Those after hold the refreshed rows.
    loaded: usize,
}

/// The rows in the slots that hold one.
spec fn live(slots: Seq<Option<StoredRow>>) -> Seq<Row>
    decreases slots.len(),
{
    if slots.len() == 0 {
        Seq::empty()
    } else {
        let earlier = live(slots.drop_last());
        match slots.last() {
            Some(row) => earlier.push(row@),
            None => earlier,
        }
    }
}

impl View for Db {
    type V = Seq<Row>;

    closed spec fn view(&self) -> Seq<Row> {
        live(self.slots@)
    }
}

spec fn holds(slots: Seq<Option<StoredRow>>, i: int, cmd: Seq<char>) -> bool {
    0 <= i < slots.len() && slots[i] is Some && slots[i]->0.cmd@ == cmd
}

spec fn indexed(slots: Seq<Option<StoredRow>>, index: Map<Seq<char>, usize>) -> bool {
    &&& forall|cmd: Seq<char>| #[trigger]
        index.contains_key(cmd) ==> holds(slots, index[cmd] as int, cmd)
    &&& forall|i: int, cmd: Seq<char>| #[trigger]
        holds(slots, i, cmd) ==> index.contains_key(cmd) && index[cmd] == i
}

proof fn lemma_live_push(slots: Seq<Option<StoredRow>>, slot: Option<StoredRow>)
    ensures
        live(slots.push(slot)) == match slot {
            Some(row) => live(slots).push(row@),
            None => live(slots),
        },
{
    assert(slots.push(slot).drop_last() =~= slots);
}

/// Every live row stands in some slot, and every full slot is live.
proof fn lemma_live_rows(slots: Seq<Option<StoredRow>>)
    ensures
        forall|k: int|
            0 <= k < live(slots).len() ==> exists|i: int|
                0 <= i < slots.len() && #[trigger] slots[i] is Some && slots[i]->0@
                    == #[trigger] live(slots)[k],
        forall|i: int|
            0 <= i < slots.len() && #[trigger] slots[i] is Some ==> live(slots).contains(
                slots[i]->0@,
            ),
    decreases slots.len(),
{
    if slots.len() > 0 {
        let rest = slots.drop_last();
        lemma_live_rows(rest);
        let before = live(rest);
        let all = live(slots);
        assert forall|k: int| 0 <= k < all.len() implies exists|i: int|
            0 <= i < slots.len() && #[trigger] slots[i] is Some && slots[i]->0@
                == #[trigger] all[k] by {
            if k < before.len() {
                assert(all[k] == before[k]);
                let i = choose|i: int|
                    0 <= i < rest.len() && #[trigger] rest[i] is Some && rest[i]->0@ == before[k];
                assert(slots[i] is Some && slots[i]->0@ == all[k]);
            } else {
                assert(slots[slots.len() - 1] is Some && slots[slots.len() - 1]->0@ == all[k]);
            }
        }
        assert forall|i: int| 0 <= i < slots.len() && #[trigger] slots[i] is Some implies
            all.contains(slots[i]->0@) by {
            if i < rest.len() {
                assert(rest[i] is Some);
                let k = choose|k: int| 0 <= k < before.len() && before[k] == rest[i]->0@;
                assert(all[k] == slots[i]->0@);
            } else {
                assert(all[all.len() - 1] == slots[i]->0@);
            }
        }
    }
}

/// Emptying the only slot of a command drops its row.
proof fn lemma_live_emptied(slots: Seq<Option<StoredRow>>, i: int, cmd: Seq<char>)
    requires
        holds(slots, i, cmd),
        forall|j: int| #[trigger] holds(slots, j, cmd) ==> j == i,
    ensures
        live(slots.update(i, None)) == without(live(slots), cmd),
    decreases slots.len(),
{
    let rest = slots.drop_last();
    let after = slots.update(i, None);
    let last = slots.len() - 1;
    lemma_live_rows(rest);
    if i == last {
        assert(after.drop_last() =~= rest);
        assert forall|k: int| 0 <= k < live(rest).len() implies #[trigger] live(rest)[k].cmd
            != cmd by {
            let j = choose|j: int|
                0 <= j < rest.len() && #[trigger] rest[j] is Some && rest[j]->0@ == live(rest)[k];
            if rest[j]->0.cmd@ == cmd {
                assert(holds(slots, j, cmd));
            }
        }
        lemma_without_absent(live(rest), cmd);
        lemma_without_last(live(slots), cmd);
        assert(live(slots).drop_last() =~= live(rest));
    } else {
        assert(after.drop_last() =~= rest.update(i, None));
        assert(holds(rest, i, cmd));
        assert forall|j: int| #[trigger] holds(rest, j, cmd) implies j == i by {
            assert(holds(slots, j, cmd));
        }
        lemma_live_emptied(rest, i, cmd);
        if slots[last] is Some {
            assert(slots[last]->0.cmd@ != cmd) by {
                if slots[last]->0.cmd@ == cmd {
                    assert(holds(slots, last, cmd));
                }
            }
            lemma_without_last(live(slots), cmd);
            assert(live(slots).drop_last() =~= live(rest));
        }
    }
}

/// A command in no slot has no refreshed row.
proof fn lemma_fresh_absent(slots: Seq<Option<StoredRow>>, loaded: int, cmd: Seq<char>)
    requires
        0 <= loaded <= slots.len(),
        forall|j: int| loaded <= j ==> !#[trigger] holds(slots, j, cmd),
    ensures
        without(live(slots.skip(loaded)), cmd) == live(slots.skip(loaded)),
{
    let recent = slots.skip(loaded);
    lemma_live_rows(recent);
    assert forall|k: int| 0 <= k < live(recent).len() implies #[trigger] live(recent)[k].cmd
        != cmd by {
        let j = choose|j: int|
            0 <= j < recent.len() && #[trigger] recent[j] is Some && recent[j]->0@
                == live(recent)[k];
        assert(!holds(slots, j + loaded, cmd));
    }
    lemma_without_absent(live(recent), cmd);
}

/// Emptying the only slot of a command drops its refreshed row, if it has one.
proof fn lemma_fresh_emptied(slots: Seq<Option<StoredRow>>, loaded: int, i: int, cmd: Seq<char>)
    requires
        0 <= loaded <= slots.len(),
        holds(slots, i, cmd),
        forall|j: int| #[trigger] holds(slots, j, cmd) ==> j == i,
    ensures
        live(slots.update(i, None).skip(loaded)) == without(live(slots.skip(loaded)), cmd),
{
    let recent = slots.skip(loaded);
    if i < loaded {
        assert(slots.update(i, None).skip(loaded) =~= recent);
        lemma_fresh_absent(slots, loaded, cmd);
    } else {
        assert(slots.update(i, None).skip(loaded) =~= recent.update(i - loaded, None));
        assert forall|j: int| #[trigger] holds(recent, j, cmd) implies j == i - loaded by {
            assert(holds(slots, j + loaded, cmd));
        }
        lemma_live_emptied(recent, i - loaded, cmd);
    }
}

/// Commands in the index are the commands of the table.
proof fn lemma_indexed_commands(slots: Seq<Option<StoredRow>>, index: Map<Seq<char>, usize>)
    requires
        indexed(slots, index),
    ensures
        distinct(live(slots)),
        forall|k: int|
            0 <= k < live(slots).len() ==> index.contains_key(#[trigger] live(slots)[k].cmd),
    decreases slots.len(),
{
    lemma_live_rows(slots);
    assert forall|k: int| 0 <= k < live(slots).len() implies index.contains_key(
        #[trigger] live(slots)[k].cmd,
    ) by {
        let i = choose|i: int|
            0 <= i < slots.len() && #[trigger] slots[i] is Some && slots[i]->0@ == live(slots)[k];
        assert(holds(slots, i, live(slots)[k].cmd));
    }
    lemma_live_distinct(slots);
}

proof fn lemma_live_distinct(slots: Seq<Option<StoredRow>>)
    requires
        forall|i: int, j: int, cmd: Seq<char>| #[trigger]
            holds(slots, i, cmd) && #[trigger] holds(slots, j, cmd) ==> i == j,
    ensures
        distinct(live(slots)),
    decreases slots.len(),
{
    if slots.len() > 0 {
        let rest = slots.drop_last();
        assert forall|i: int, j: int, cmd: Seq<char>| #[trigger]
            holds(rest, i, cmd) && #[trigger] holds(rest, j, cmd) implies i == j by {
            assert(holds(slots, i, cmd) && holds(slots, j, cmd));
        }
        lemma_live_distinct(rest);
        lemma_live_rows(rest);
        let last = slots.len() - 1;
        if slots[last] is Some {
            let cmd = slots[last]->0.cmd@;
            assert forall|k: int| 0 <= k < live(rest).len() implies #[trigger] live(rest)[k].cmd
                != cmd by {
                let i = choose|i: int|
                    0 <= i < rest.len() && #[trigger] rest[i] is Some && rest[i]->0@
                        == live(rest)[k];
                if rest[i]->0.cmd@ == cmd {
                    assert(holds(slots, i, cmd));
                    assert(holds(slots, last, cmd));
                }
            }
        }
    }
}

/// Filling a new slot with a command not stored yet.
proof fn lemma_indexed_push(
    slots: Seq<Option<StoredRow>>,
    index: Map<Seq<char>, usize>,
    row: StoredRow,
)
    requires
        indexed(slots, index),
        !index.contains_key(row.cmd@),
        slots.len() <= usize::MAX,
    ensures
        indexed(slots.push(Some(row)), index.insert(row.cmd@, slots.len() as usize)),
{
    let longer = slots.push(Some(row));
    let wider = index.insert(row.cmd@, slots.len() as usize);
    assert forall|cmd: Seq<char>| #[trigger] wider.contains_key(cmd) implies holds(
        longer,
        wider[cmd] as int,
        cmd,
    ) by {
        if cmd != row.cmd@ {
            assert(index.contains_key(cmd));
            assert(holds(slots, index[cmd] as int, cmd));
        }
    }
    assert forall|i: int, cmd: Seq<char>| #[trigger] holds(longer, i, cmd) implies
        wider.contains_key(cmd) && wider[cmd] == i by {
        if i < slots.len() {
            assert(holds(slots, i, cmd));
        }
    }
}

/// Emptying the slot of a command.
proof fn lemma_indexed_emptied(
    slots: Seq<Option<StoredRow>>,
    index: Map<Seq<char>, usize>,
    i: int,
    cmd: Seq<char>,
)
    requires
        indexed(slots, index),
        holds(slots, i, cmd),
    ensures
        indexed(slots.update(i, None), index.remove(cmd)),
{
    let emptied = slots.update(i, None);
    let narrower = index.remove(cmd);
    assert forall|c: Seq<char>| #[trigger] narrower.contains_key(c) implies holds(
        emptied,
        narrower[c] as int,
        c,
    ) by {
        assert(index.contains_key(c));
        assert(holds(slots, index[c] as int, c));
    }
    assert forall|j: int, c: Seq<char>| #[trigger] holds(emptied, j, c) implies
        narrower.contains_key(c) && narrower[c] == j by {
        assert(holds(slots, j, c));
    }
}

/// Whether a sighting is outdated can be told from its command's slot alone.
proof fn lemma_outdated_is_newer(
    slots: Seq<Option<StoredRow>>,
    index: Map<Seq<char>, usize>,
    s: Sighting,
    i: int,
)
    requires
        indexed(slots, index),
        holds(slots, i, s.cmd),
    ensures
        outdated(live(slots), s) == newer_row(slots[i]->0@, s),
{
    lemma_live_rows(slots);
    let table = live(slots);
    if outdated(table, s) {
        let k = choose|k: int| 0 <= k < table.len() && newer_row(#[trigger] table[k], s);
        let j = choose|j: int|
            0 <= j < slots.len() && #[trigger] slots[j] is Some && slots[j]->0@ == table[k];
        assert(holds(slots, j, s.cmd));
    }
    if newer_row(slots[i]->0@, s) {
        assert(table.contains(slots[i]->0@));
        let k = choose|k: int| 0 <= k < table.len() && table[k] == slots[i]->0@;
        assert(newer_row(table[k], s));
    }
}

/// With no slot empty, the rows are the slots.
proof fn lemma_live_all(slots: Seq<Option<StoredRow>>, rows: Seq<StoredRow>)
    requires
        slots.len() == rows.len(),
        forall|k: int| 0 <= k < slots.len() ==> #[trigger] slots[k] == Some(rows[k]),
    ensures
        live(slots) == stored(rows),
    decreases slots.len(),
{
    if slots.len() > 0 {
        assert(slots[slots.len() - 1] == Some(rows[rows.len() - 1]));
        assert forall|k: int| 0 <= k < slots.drop_last().len() implies
            #[trigger] slots.drop_last()[k] == Some(rows.drop_last()[k]) by {
            assert(slots[k] == Some(rows[k]));
        }
        lemma_live_all(slots.drop_last(), rows.drop_last());
    }
    assert(live(slots) =~= stored(rows));
}

impl Db {
    /// Every stored command is found where the index says.
    pub closed spec fn well_formed(&self) -> bool {
        indexed(self.slots@, self.index@) && self.loaded <= self.slots@.len()
    }

    /// The rows recorded since the table was made, in order of arrival.
    pub closed spec fn fresh(&self) -> Seq<Row> {
        live(self.slots@.skip(self.loaded as int))
    }

    /// An empty table.
    pub fn new() -> (db: Db)
        ensures
            db.well_formed(),
            db@ == Seq::<Row>::empty(),
            db.fresh() == Seq::<Row>::empty(),
    {
        Db { slots: Vec::new(), index: StringHashMap::new(), loaded: 0 }
    }

    /// The table with the given rows, in order of arrival, or None when two of them hold the same
    /// command.
    pub fn from_rows(rows: Vec<StoredRow>) -> (db: Option<Db>)
        ensures
            match db {
                Some(d) => {
                    &&& d.well_formed()
                    &&& d@ == stored(rows@)
                    &&& d.fresh() == Seq::<Row>::empty()
                    &&& distinct(stored(rows@))
                },
                None => !distinct(stored(rows@)),
            },
    {
        let mut slots: Vec<Option<StoredRow>> = Vec::new();
        let mut index: StringHashMap<usize> = StringHashMap::new();
        let ghost all = stored(rows@);
        for row in it: rows
            invariant
                it.seq() == rows@,
                all == stored(rows@),
                slots@.len() == it.index(),
                forall|k: int|
                    0 <= k < slots@.len() ==> #[trigger] slots@[k] == Some(rows@[k]),
                indexed(slots@, index@),
        {
            let ghost before = slots@;
            let ghost position = slots@.len() as int;
            assert(row == rows@[position]);
            if index.contains_key(row.cmd.as_str()) {
                proof {
                    let i = index@[row.cmd@] as int;
                    assert(holds(slots@, i, row.cmd@));
                    assert(all[i].cmd == row.cmd@);
                    assert(all[position].cmd == row.cmd@);
                }
                return None;
            }
            let ghost previous = index@;
            index.insert(row.cmd.clone(), slots.len());
            slots.push(Some(row));
            proof {
                lemma_indexed_push(before, previous, row);
            }
        }
        proof {
            lemma_live_all(slots@, rows@);
            lemma_indexed_commands(slots@, index@);
        }
        let loaded: usize = slots.len();
        assert(slots@.skip(loaded as int) =~= Seq::empty());
        Some(Db { slots, index, loaded })
    }

    /// The rows in order of arrival.
    pub fn into_rows(self) -> (rows: Vec<StoredRow>)
        requires
            self.well_formed(),
        ensures
            stored(rows@) == self@,
    {
        let mut rows: Vec<StoredRow> = Vec::new();
        let ghost slots = self.slots@;
        for slot in it: self.slots
            invariant
                it.seq() == slots,
                stored(rows@) == live(slots.take(it.index() as int)),
        {
            let ghost k = it.index() as int;
            proof {
                assert(slots.take(k + 1).drop_last() =~= slots.take(k));
                assert(slots.take(k + 1).last() == slot);
            }
            if let Some(row) = slot {
                let ghost before = rows@;
                rows.push(row);
                assert(stored(rows@) =~= stored(before).push(row@));
            }
        }
        assert(slots.take(slots.len() as int) =~= slots);
        rows
    }

    /// The rows recorded since the table was made, in order of arrival. Written over what the table
    /// was made from, they bring it up to date.
    pub fn into_fresh_rows(self) -> (rows: Vec<StoredRow>)
        requires
            self.well_formed(),
        ensures
            stored(rows@) == self.fresh(),
    {
        let mut rows: Vec<StoredRow> = Vec::new();
        let mut i: usize = 0;
        let loaded: usize = self.loaded;
        let ghost slots = self.slots@;
        let ghost fresh = slots.skip(loaded as int);
        assert(self.slots@.len() == self.slots.len());
        for slot in it: self.slots
            invariant
                it.seq() == slots,
                i == it.index(),
                slots.len() <= usize::MAX,
                loaded <= slots.len(),
                fresh == slots.skip(loaded as int),
                i <= loaded ==> rows@.len() == 0,
                i > loaded ==> stored(rows@) == live(fresh.take(i - loaded)),
        {
            let ghost before = rows@;
            let ghost k = i - loaded;
            if i >= loaded {
                proof {
                    assert(fresh.take(0) =~= Seq::empty());
                    assert(stored(before) =~= live(fresh.take(k)));
                    assert(fresh.take(k + 1).drop_last() =~= fresh.take(k));
                    assert(fresh.take(k + 1).last() == slot);
                }
                if let Some(row) = slot {
                    rows.push(row);
                    assert(stored(rows@) =~= stored(before).push(row@));
                }
            }
            i += 1;
        }
        proof {
            assert(fresh.take(fresh.len() as int) =~= fresh);
            assert(fresh.len() == 0 ==> fresh =~= Seq::empty());
        }
        rows
    }

    /// Record one command. Inserts it, or replaces everything stored for it when this sighting is
    /// at least as new, and says whether it did.
    ///
    /// That an older sighting is refused is what makes import safe to run at any time and more
    /// than once. A refreshed row moves to the end, so sightings of the same second sort by
    /// arrival, since their times alone cannot separate them.
    pub fn observe(&mut self, row: Observation) -> (written: bool)
        requires
            old(self).well_formed(),
        ensures
            final(self).well_formed(),
            final(self)@ == observed(old(self)@, row@),
            final(self).fresh() == refreshed(old(self)@, old(self).fresh(), row@),
            written == !outdated(old(self)@, row@),
    {
        let ghost before = self.slots@;
        let ghost index = self.index@;
        let ghost s = row@;
        proof {
            lemma_live_rows(before);
            lemma_indexed_commands(before, index);
        }
        let found: Option<usize> = match self.index.get(row.cmd.as_str()) {
            Some(i) => Some(*i),
            None => None,
        };
        let fresh = StoredRow {
            cmd: row.cmd.clone(),
            cwd: row.cwd,
            exit: row.exit,
            ts: Some(row.ts),
            session: row.session,
        };
        match found {
            Some(i) => {
                assert(holds(before, i as int, s.cmd));
                let newer = match &self.slots[i] {
                    Some(stored) => match stored.ts {
                        Some(ts) => ts > row.ts,
                        None => false,
                    },
                    None => false,
                };
                proof {
                    lemma_outdated_is_newer(before, index, s, i as int);
                }
                if newer {
                    return false;
                }
                self.slots.set(i, None);
                proof {
                    assert forall|j: int| #[trigger] holds(before, j, s.cmd) implies j == i by {}
                    lemma_live_emptied(before, i as int, s.cmd);
                    lemma_indexed_emptied(before, index, i as int, s.cmd);
                    lemma_fresh_emptied(before, self.loaded as int, i as int, s.cmd);
                }
            },
            None => {
                proof {
                    assert forall|k: int| 0 <= k < live(before).len() implies #[trigger] live(
                        before,
                    )[k].cmd != s.cmd by {
                        assert(index.contains_key(live(before)[k].cmd));
                    }
                    lemma_without_absent(live(before), s.cmd);
                    assert(!outdated(live(before), s));
                    assert(index.remove(s.cmd) =~= index);
                    lemma_fresh_absent(before, self.loaded as int, s.cmd);
                }
            },
        }
        let ghost emptied = self.slots@;
        let position: usize = self.slots.len();
        self.index.insert(row.cmd, position);
        self.slots.push(Some(fresh));
        proof {
            lemma_live_push(emptied, Some(fresh));
            let loaded = self.loaded as int;
            lemma_live_push(emptied.skip(loaded), Some(fresh));
            assert(self.slots@.skip(loaded) =~= emptied.skip(loaded).push(Some(fresh)));
            lemma_indexed_push(emptied, index.remove(s.cmd), fresh);
            assert(self.index@ =~= index.remove(s.cmd).insert(s.cmd, position));
            assert(fresh@ =~= record(s));
        }
        true
    }

    /// Record many commands, the shape import needs. Blank commands are skipped, and the others
    /// are recorded without the blanks around them.
    ///
    /// Returns how many sightings were recorded, which is not the row count of the table:
    /// repeats collapse onto one row.
    pub fn observe_all(&mut self, rows: Vec<Observation>) -> (count: u64)
        requires
            old(self).well_formed(),
        ensures
            final(self).well_formed(),
            final(self)@ == replayed(old(self)@, recorded(sightings(rows@))),
            final(self).fresh() == all_refreshed(
                old(self)@,
                old(self).fresh(),
                recorded(sightings(rows@)),
            ),
            count == recorded(sightings(rows@)).len(),
    {
        let mut count: u64 = 0;
        let ghost start = self@;
        let ghost start_fresh = self.fresh();
        let ghost all = sightings(rows@);
        proof {
            a_batch_records_no_blank_command(all);
            assert(rows@.len() == rows.len());
            assert(all.take(0) =~= Seq::empty());
        }
        for row in it: rows
            invariant
                it.seq() == rows@,
                all == sightings(rows@),
                rows@.len() <= usize::MAX,
                self.well_formed(),
                self@ == replayed(start, recorded(all.take(it.index() as int))),
                self.fresh() == all_refreshed(
                    start,
                    start_fresh,
                    recorded(all.take(it.index() as int)),
                ),
                count == recorded(all.take(it.index() as int)).len(),
                count <= it.index(),
        {
            let ghost k = it.index() as int;
            let cmd = trim(row.cmd.as_str());
            proof {
                assert(all.take(k + 1).drop_last() =~= all.take(k));
                assert(all.take(k + 1).last() == row@);
                blank_text_trims_to_nothing(row.cmd@);
            }
            if !cmd.as_str().is_empty() {
                let ghost s = Sighting { cmd: trimmed(row.cmd@), ..row@ };
                let ghost earlier = recorded(all.take(k));
                let row = Observation {
                    cmd,
                    cwd: row.cwd,
                    exit: row.exit,
                    ts: row.ts,
                    session: row.session,
                };
                assert(row@ =~= s);
                self.observe(row);
                count += 1;
                proof {
                    assert(earlier.push(s).drop_last() =~= earlier);
                }
            }
        }
        assert(all.take(all.len() as int) =~= all);
        count
    }

    /// The newest `limit` commands, newest first. The picker relies on that order for its
    /// tiebreak, so do not reorder here.
    ///
    /// Fails when one of them carries no time, which only another program can have stored.
    pub fn recent(&self, limit: usize) -> (rows: Result<Vec<HistoryRow>, DbError>)
        requires
            self.well_formed(),
        ensures
            match rows {
                Ok(out) => timed(newest(self@, limit as nat)) && history_rows(out@)
                    == newest(self@, limit as nat).map_values(|row: Row| picked(row)),
                Err(error) => !timed(newest(self@, limit as nat)) && (error
                    matches DbError::Query(message) && message@
                    == "Invalid column type Null at index: 1, name: ts"@),
            },
    {
        let found = self.newest_rows(limit);
        let ghost all = newest(self@, limit as nat);
        let mut out: Vec<HistoryRow> = Vec::new();
        let mut k: usize = 0;
        while k < found.len()
            invariant
                k <= found@.len(),
                borrowed(found@) == all,
                all == newest(self@, limit as nat),
                out@.len() == k,
                forall|i: int| 0 <= i < k ==> (#[trigger] all[i]).ts is Some,
                forall|i: int| 0 <= i < k ==> (#[trigger] out@[i])@ == picked(all[i]),
            decreases found@.len() - k,
        {
            let row = found[k];
            assert(all[k as int] == row@);
            match row.ts {
                Some(ts) => {
                    out.push(
                        HistoryRow { cmd: row.cmd.clone(), ts, cwd: copy_optional(&row.cwd) },
                    );
                },
                None => {
                    return Err(untimed("Invalid column type Null at index: 1, name: ts"));
                },
            }
            k += 1;
        }
        assert(history_rows(out@) =~= all.map_values(|row: Row| picked(row)));
        Ok(out)
    }

    /// The 50 newest commands, newest first, for `padloper list`. Fails as [`Db::recent`] does.
    pub fn list(&self) -> (rows: Result<Vec<ListRow>, DbError>)
        requires
            self.well_formed(),
        ensures
            match rows {
                Ok(out) => timed(newest(self@, LIST_LIMIT as nat)) && list_rows(out@) == newest(
                    self@,
                    LIST_LIMIT as nat,
                ).map_values(|row: Row| listed(row)),
                Err(error) => !timed(newest(self@, LIST_LIMIT as nat)) && (error
                    matches DbError::Query(message) && message@
                    == "Invalid column type Null at index: 0, name: ts"@),
            },
    {
        let found = self.newest_rows(LIST_LIMIT);
        let ghost all = newest(self@, LIST_LIMIT as nat);
        let mut out: Vec<ListRow> = Vec::new();
        let mut k: usize = 0;
        while k < found.len()
            invariant
                k <= found@.len(),
                borrowed(found@) == all,
                all == newest(self@, LIST_LIMIT as nat),
                out@.len() == k,
                forall|i: int| 0 <= i < k ==> (#[trigger] all[i]).ts is Some,
                forall|i: int| 0 <= i < k ==> (#[trigger] out@[i])@ == listed(all[i]),
            decreases found@.len() - k,
        {
            let row = found[k];
            assert(all[k as int] == row@);
            match row.ts {
                Some(ts) => {
                    out.push(ListRow { ts, exit: row.exit, cmd: row.cmd.clone() });
                },
                None => {
                    return Err(untimed("Invalid column type Null at index: 0, name: ts"));
                },
            }
            k += 1;
        }
        assert(list_rows(out@) =~= all.map_values(|row: Row| listed(row)));
        Ok(out)
    }

    /// The `limit` newest rows, newest first.
    fn newest_rows(&self, limit: usize) -> (found: Vec<&StoredRow>)
        requires
            self.well_formed(),
        ensures
            borrowed(found@) == newest(self@, limit as nat),
    {
        let rows = self.live_rows();
        let order = newest_indices(&rows);
        let count: usize = if limit < order.len() {
            limit
        } else {
            order.len()
        };
        let mut found: Vec<&StoredRow> = Vec::new();
        let mut k: usize = 0;
        while k < count
            invariant
                k <= count <= order@.len(),
                self@ == borrowed(rows@),
                indices(order@) == newest_order(self@),
                found@.len() == k,
                forall|i: int|
                    0 <= i < k ==> (#[trigger] found@[i])@ == self@[newest_order(self@)[i]],
            decreases count - k,
        {
            proof {
                newest_lists_every_row_once(self@);
                assert(newest_order(self@)[k as int] == order@[k as int]);
            }
            found.push(rows[order[k]]);
            k += 1;
        }
        assert(borrowed(found@) =~= newest(self@, limit as nat));
        found
    }

    fn live_rows(&self) -> (rows: Vec<&StoredRow>)
        requires
            self.well_formed(),
        ensures
            borrowed(rows@) == self@,
    {
        let mut rows: Vec<&StoredRow> = Vec::new();
        let mut k: usize = 0;
        while k < self.slots.len()
            invariant
                k <= self.slots@.len(),
                borrowed(rows@) == live(self.slots@.take(k as int)),
            decreases self.slots@.len() - k,
        {
            proof {
                assert(self.slots@.take(k + 1).drop_last() =~= self.slots@.take(k as int));
                assert(self.slots@.take(k + 1).last() == self.slots@[k as int]);
            }
            if let Some(row) = &self.slots[k] {
                let ghost before = rows@;
                rows.push(row);
                assert(borrowed(rows@) =~= borrowed(before).push(row@));
            }
            k += 1;
        }
        assert(self.slots@.take(k as int) =~= self.slots@);
        rows
    }

    /// No command has two rows.
    pub proof fn one_row_per_command(&self)
        requires
            self.well_formed(),
        ensures
            distinct(self@),
    {
        lemma_indexed_commands(self.slots@, self.index@);
    }
}

// ---------------------------------------------------------------------------------------------
// Reading
// ---------------------------------------------------------------------------------------------

/// What the rows behind references hold.
spec fn borrowed(rows: Seq<&StoredRow>) -> Seq<Row> {
    rows.map_values(|row: &StoredRow| row@)
}

/// What the rows of the picker hold.
pub open spec fn history_rows(rows: Seq<HistoryRow>) -> Seq<HistoryRowView> {
    rows.map_values(|row: HistoryRow| row@)
}

/// What the rows of a listing hold.
pub open spec fn list_rows(rows: Seq<ListRow>) -> Seq<ListRowView> {
    rows.map_values(|row: ListRow| row@)
}

/// Every row carries a time.
pub open spec fn timed(rows: Seq<Row>) -> bool {
    forall|i: int| 0 <= i < rows.len() ==> (#[trigger] rows[i]).ts is Some
}

/// A row as the picker needs it.
pub open spec fn picked(row: Row) -> HistoryRowView {
    HistoryRowView { cmd: row.cmd, ts: row.ts->0, cwd: row.cwd }
}

/// A row as a listing needs it.
pub open spec fn listed(row: Row) -> ListRowView {
    ListRowView { ts: row.ts->0, exit: row.exit, cmd: row.cmd }
}

/// The failure to read a time.
fn untimed(message: &str) -> (error: DbError)
    ensures
        error matches DbError::Query(text) && text@ == message@,
{
    DbError::Query(message.to_owned())
}

/// Newest first, between equal times the later arrival first.
struct Newest<'a> {
    rows: &'a Vec<&'a StoredRow>,
}

impl<'a> IndexOrder for Newest<'a> {
    closed spec fn member(&self, i: int) -> bool {
        0 <= i < self.rows@.len()
    }

    closed spec fn before(&self, i: int, j: int) -> bool {
        listed_before(borrowed(self.rows@), i, j)
    }

    fn bound(&self) -> (n: usize) {
        self.rows.len()
    }

    fn takes_part(&self, i: usize) -> (yes: bool) {
        i < self.rows.len()
    }

    proof fn strict(&self) {
    }

    fn comes_before(&self, i: usize, j: usize) -> (yes: bool) {
        match (self.rows[i].ts, self.rows[j].ts) {
            (Some(a), Some(b)) => a > b || (a == b && i > j),
            (Some(_), None) => true,
            (None, Some(_)) => false,
            (None, None) => i > j,
        }
    }
}

fn newest_indices(rows: &Vec<&StoredRow>) -> (order: Vec<usize>)
    ensures
        indices(order@) == newest_order(borrowed(rows@)),
{
    let newest = Newest { rows };
    proof {
        let table = borrowed(rows@);
        assert((|i: int| newest.member(i)) =~= (|i: int| 0 <= i < table.len()));
        assert((|i: int, j: int| newest.before(i, j)) =~= (|i: int, j: int|
            listed_before(table, i, j)));
    }
    arrange(&newest)
}

// ---------------------------------------------------------------------------------------------
// Field by field
// ---------------------------------------------------------------------------------------------

/// An observation says what its fields hold.
pub proof fn an_observation_is_its_fields(row: Observation)
    ensures
        row@.cmd == row.cmd@,
        row@.exit == row.exit,
        row@.ts == row.ts,
        row@.cwd is Some <==> row.cwd is Some,
        row.cwd matches Some(dir) ==> row@.cwd == Some(dir@),
        row@.session is Some <==> row.session is Some,
        row.session matches Some(id) ==> row@.session == Some(id@),
{
}

/// A stored row says what its fields hold.
pub proof fn a_stored_row_is_its_fields(row: StoredRow)
    ensures
        row@.cmd == row.cmd@,
        row@.exit == row.exit,
        row@.ts == row.ts,
        row@.cwd is Some <==> row.cwd is Some,
        row.cwd matches Some(dir) ==> row@.cwd == Some(dir@),
        row@.session is Some <==> row.session is Some,
        row.session matches Some(id) ==> row@.session == Some(id@),
{
}

/// A row of the picker says what its fields hold.
pub proof fn a_history_row_is_its_fields(row: HistoryRow)
    ensures
        row@.cmd == row.cmd@,
        row@.ts == row.ts,
        row@.cwd is Some <==> row.cwd is Some,
        row.cwd matches Some(dir) ==> row@.cwd == Some(dir@),
{
}

/// A row of a listing says what its fields hold.
pub proof fn a_list_row_is_its_fields(row: ListRow)
    ensures
        row@.ts == row.ts,
        row@.exit == row.exit,
        row@.cmd == row.cmd@,
{
}

/// The rows of a vector keep their number, their order, and what they say.
pub proof fn rows_keep_their_places(
    observations: Seq<Observation>,
    rows: Seq<StoredRow>,
    picked_rows: Seq<HistoryRow>,
    listed_rows: Seq<ListRow>,
)
    ensures
        sightings(observations).len() == observations.len(),
        forall|i: int|
            0 <= i < observations.len() ==> #[trigger] sightings(observations)[i]
                == observations[i]@,
        stored(rows).len() == rows.len(),
        forall|i: int| 0 <= i < rows.len() ==> #[trigger] stored(rows)[i] == rows[i]@,
        history_rows(picked_rows).len() == picked_rows.len(),
        forall|i: int|
            0 <= i < picked_rows.len() ==> #[trigger] history_rows(picked_rows)[i]
                == picked_rows[i]@,
        list_rows(listed_rows).len() == listed_rows.len(),
        forall|i: int|
            0 <= i < listed_rows.len() ==> #[trigger] list_rows(listed_rows)[i] == listed_rows[i]@,
{
}

/// A row that is read keeps its command, its time, and the directory or the exit status that the
/// reader asks for. Only a row without a time cannot be read.
pub proof fn reading_keeps_every_field(row: Row, rows: Seq<Row>)
    requires
        row.ts is Some,
    ensures
        picked(row).cmd == row.cmd,
        Some(picked(row).ts) == row.ts,
        picked(row).cwd == row.cwd,
        listed(row).cmd == row.cmd,
        Some(listed(row).ts) == row.ts,
        listed(row).exit == row.exit,
        timed(rows) <==> forall|i: int| 0 <= i < rows.len() ==> (#[trigger] rows[i]).ts is Some,
{
}

/// A recorded command that no stored row is newer than is the first that is read back, with its
/// text, its time, its directory, and its exit status.
pub proof fn a_recorded_command_reads_back(table: Seq<Row>, s: Sighting, limit: nat)
    requires
        limit > 0,
        forall|i: int|
            0 <= i < table.len() && (#[trigger] table[i]).ts is Some ==> table[i].ts->0 <= s.ts,
    ensures
        ({
            let rows = newest(observed(table, s), limit);
            &&& rows.len() > 0
            &&& picked(rows[0]).cmd == s.cmd && picked(rows[0]).ts == s.ts && picked(rows[0]).cwd
                == s.cwd
            &&& listed(rows[0]).cmd == s.cmd && listed(rows[0]).ts == s.ts && listed(rows[0]).exit
                == s.exit
        }),
{
    crate::table::the_latest_sighting_is_listed_first(table, s, limit);
}

/// The part does not end in a separator.
proof fn lemma_local_ends_in_a_letter()
    ensures
        vstd::utf8::encode_utf8(".local"@).len() > 0,
        vstd::utf8::encode_utf8(".local"@).last() != 47,
{
    reveal_strlit(".local");
    vstd::utf8::is_ascii_chars_encode_utf8(".local"@);
}

/// The data root is `XDG_DATA_HOME`, or else `.local/share` under `HOME`; a variable that is unset
/// or empty does not count, and without either there is none.
pub proof fn the_data_root_is_under_xdg_or_home(xdg: Seq<u8>, home: Seq<u8>)
    ensures
        xdg.len() > 0 ==> data_root(Some(xdg), Some(home)) == Some(xdg) && data_root(
            Some(xdg),
            None,
        ) == Some(xdg),
        home.len() > 0 && home.last() != 47 ==> data_root(None, Some(home)) == Some(
            home + seq![47u8] + vstd::utf8::encode_utf8(".local"@) + seq![47u8]
                + vstd::utf8::encode_utf8("share"@),
        ) && data_root(Some(Seq::empty()), Some(home)) == data_root(None, Some(home)),
        home.len() > 0 ==> data_root(None, Some(home)) == Some(
            extended(extended(home, ".local"@), "share"@),
        ),
        data_root(None, None) is None,
        data_root(None, Some(Seq::empty())) is None,
        data_root(Some(Seq::empty()), None) is None,
{
    crate::paths::parts_are_joined_by_one_separator(home, ".local"@);
    let local = extended(home, ".local"@);
    lemma_local_ends_in_a_letter();
    if home.len() > 0 && home.last() != 47 {
        assert(local.last() == vstd::utf8::encode_utf8(".local"@).last());
        crate::paths::parts_are_joined_by_one_separator(local, "share"@);
        assert(extended(local, "share"@) =~= home + seq![47u8] + vstd::utf8::encode_utf8(".local"@)
            + seq![47u8] + vstd::utf8::encode_utf8("share"@));
    }
}

/// What a database failure says names what failed and where.
pub proof fn database_failures_name_what_failed(path: String, message: String)
    ensures
        DbError::NoHome.text()
            == "cannot locate the data directory: XDG_DATA_HOME and HOME are unset"@,
        (DbError::Open { path, message }).text() == "cannot open "@ + path@ + ": "@ + message@,
        DbError::Query(message).text() == "database error: "@ + message@,
{
}

} // verus!
