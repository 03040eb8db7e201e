//! Atuin's history database. It is the richest source: cwd, exit status, and session all come
//! across.
//!
//! The program around the library reads the rows; which of them count, in what order, and what
//! each says is decided here.

use vstd::prelude::*;

use crate::db::{sightings, Observation};
use crate::import::ImportError;
use crate::order::{
    arrange, arranged, arrangement, arrangement_exists, indices, strict_order, IndexOrder,
};
use crate::table::Sighting;
use crate::text::{chars_of, copy_optional, optional};

verus! {

/// A row of atuin's history table. Any column may be null in a file that atuin did not write.
pub struct AtuinRow {
    pub id: Option<String>,
    /// Unix nanoseconds.
    pub timestamp: Option<i64>,
    pub exit: Option<i64>,
    pub command: Option<String>,
    pub cwd: Option<String>,
    pub session: Option<String>,
    /// Atuin keeps deleted commands and marks them.
    pub deleted: bool,
}

/// What an [`AtuinRow`] holds.
#[verifier::ext_equal]
pub struct AtuinRowView {
    pub id: Option<Seq<char>>,
    pub timestamp: Option<i64>,
    pub exit: Option<i64>,
    pub command: Option<Seq<char>>,
    pub cwd: Option<Seq<char>>,
    pub session: Option<Seq<char>>,
    pub deleted: bool,
}

impl View for AtuinRow {
    type V = AtuinRowView;

    open spec fn view(&self) -> AtuinRowView {
        AtuinRowView {
            id: optional(self.id),
            timestamp: self.timestamp,
            exit: self.exit,
            command: optional(self.command),
            cwd: optional(self.cwd),
            session: optional(self.session),
            deleted: self.deleted,
        }
    }
}

/// What the rows of a vector hold.
pub open spec fn atuin_rows(rows: Seq<AtuinRow>) -> Seq<AtuinRowView> {
    rows.map_values(|row: AtuinRow| row@)
}

pub const NULL_COMMAND: &'static str = "Invalid column type Null at index: 0, name: command";

pub const NULL_TIMESTAMP: &'static str =
    "Invalid column type Null at index: 3, name: timestamp / 1000000000";

// ---------------------------------------------------------------------------------------------
// Order
// ---------------------------------------------------------------------------------------------

/// Whether one text comes before another, character by character.
pub open spec fn text_before(a: Seq<char>, b: Seq<char>) -> bool
    decreases a.len(),
{
    if b.len() == 0 {
        false
    } else if a.len() == 0 {
        true
    } else {
        a[0] < b[0] || (a[0] == b[0] && text_before(a.drop_first(), b.drop_first()))
    }
}

/// Whether one id comes before another. A missing one comes first.
pub open spec fn id_before(a: Option<Seq<char>>, b: Option<Seq<char>>) -> bool {
    match (a, b) {
        (None, None) => false,
        (None, Some(_)) => true,
        (Some(_), None) => false,
        (Some(x), Some(y)) => text_before(x, y),
    }
}

/// Whether one time comes before another. A missing one comes first.
pub open spec fn time_before(a: Option<i64>, b: Option<i64>) -> bool {
    match (a, b) {
        (None, None) => false,
        (None, Some(_)) => true,
        (Some(_), None) => false,
        (Some(x), Some(y)) => x < y,
    }
}

/// Whether row `i` is read before row `j`: by time, between equal times by id, and between equal
/// ids as they come.
pub open spec fn read_before(rows: Seq<AtuinRowView>, i: int, j: int) -> bool {
    let a = rows[i];
    let b = rows[j];
    time_before(a.timestamp, b.timestamp) || (a.timestamp == b.timestamp && (id_before(a.id, b.id)
        || (a.id == b.id && i < j)))
}

/// Whether row `i` counts. Deleted commands do not: importing one would resurrect something the
/// user deleted on purpose.
pub open spec fn counts(rows: Seq<AtuinRowView>, i: int) -> bool {
    0 <= i < rows.len() && !rows[i].deleted
}

/// The positions of the rows that count, in the order they are read.
pub open spec fn reading_order(rows: Seq<AtuinRowView>) -> Seq<int> {
    arrangement(|i: int| counts(rows, i), |i: int, j: int| read_before(rows, i, j))
}

proof fn lemma_text_order(a: Seq<char>, b: Seq<char>)
    ensures
        !text_before(a, a),
        a != b ==> text_before(a, b) || text_before(b, a),
    decreases a.len(),
{
    if a.len() > 0 && b.len() > 0 {
        lemma_text_order(a.drop_first(), b.drop_first());
        if a[0] == b[0] && a.drop_first() == b.drop_first() {
            assert(a =~= seq![a[0]] + a.drop_first());
            assert(b =~= seq![b[0]] + b.drop_first());
        }
    } else if a.len() > 0 {
        lemma_text_order(a.drop_first(), b);
    } else if b.len() == 0 {
        assert(a =~= b);
    }
}

proof fn lemma_text_transitive(a: Seq<char>, b: Seq<char>, c: Seq<char>)
    requires
        text_before(a, b),
        text_before(b, c),
    ensures
        text_before(a, c),
    decreases a.len(),
{
    if a.len() > 0 {
        if a[0] == b[0] && b[0] == c[0] {
            lemma_text_transitive(a.drop_first(), b.drop_first(), c.drop_first());
        }
    }
}

/// The reading order is an order in which no two rows tie.
pub proof fn lemma_reading_is_strict(rows: Seq<AtuinRowView>)
    ensures
        strict_order(|i: int| counts(rows, i), |i: int, j: int| read_before(rows, i, j)),
{
    let before = |i: int, j: int| read_before(rows, i, j);
    assert forall|i: int| #[trigger] counts(rows, i) implies !before(i, i) by {
        if let Some(id) = rows[i].id {
            lemma_text_order(id, id);
        }
    }
    assert forall|i: int, j: int| #[trigger]
        counts(rows, i) && #[trigger] counts(rows, j) && i != j implies before(i, j) || before(
        j,
        i,
    ) by {
        if let (Some(a), Some(b)) = (rows[i].id, rows[j].id) {
            lemma_text_order(a, b);
        }
    }
    assert forall|i: int, j: int, k: int|
        counts(rows, i) && counts(rows, j) && counts(rows, k) && #[trigger] before(i, j)
            && #[trigger] before(j, k) implies before(i, k) by {
        if let (Some(a), Some(b), Some(c)) = (rows[i].id, rows[j].id, rows[k].id) {
            if text_before(a, b) && text_before(b, c) {
                lemma_text_transitive(a, b, c);
            }
        }
    }
}

/// The reading holds each row that counts once, oldest first.
pub proof fn reading_is_oldest_first(rows: Seq<AtuinRowView>)
    ensures
        forall|k: int|
            0 <= k < reading_order(rows).len() ==> counts(rows, #[trigger] reading_order(rows)[k]),
        forall|i: int| #[trigger] counts(rows, i) ==> reading_order(rows).contains(i),
        forall|a: int, b: int|
            0 <= a < b < reading_order(rows).len() ==> !time_before(
                rows[#[trigger] reading_order(rows)[b]].timestamp,
                rows[#[trigger] reading_order(rows)[a]].timestamp,
            ),
{
    let member = |i: int| counts(rows, i);
    let before = |i: int, j: int| read_before(rows, i, j);
    lemma_reading_is_strict(rows);
    arrangement_exists(rows.len(), member, before);
    let order = reading_order(rows);
    assert forall|k: int| 0 <= k < order.len() implies counts(rows, #[trigger] order[k]) by {
        assert(member(order[k]));
    }
    assert forall|i: int| #[trigger] counts(rows, i) implies order.contains(i) by {
        assert(member(i));
    }
    assert forall|a: int, b: int| 0 <= a < b < order.len() implies !time_before(
        rows[#[trigger] order[b]].timestamp,
        rows[#[trigger] order[a]].timestamp,
    ) by {
        assert(before(order[a], order[b]));
    }
}

// ---------------------------------------------------------------------------------------------
// Rows
// ---------------------------------------------------------------------------------------------

/// Nanoseconds as whole seconds, cut towards zero.
pub open spec fn seconds(nanoseconds: int) -> int {
    if nanoseconds >= 0 {
        nanoseconds / 1_000_000_000
    } else {
        -((-nanoseconds) / 1_000_000_000)
    }
}

/// What is missing in a row, if anything.
pub open spec fn missing(row: AtuinRowView) -> Option<Seq<char>> {
    if row.command is None {
        Some(NULL_COMMAND@)
    } else if row.timestamp is None {
        Some(NULL_TIMESTAMP@)
    } else {
        None
    }
}

/// The sighting that a row with nothing missing records.
pub open spec fn sighting(row: AtuinRowView) -> Sighting {
    Sighting {
        cmd: row.command->0,
        cwd: row.cwd,
        exit: row.exit,
        ts: seconds(row.timestamp->0 as int) as i64,
        session: row.session,
    }
}

/// Whether the rows up to `n` of a reading lack nothing.
pub open spec fn complete(rows: Seq<AtuinRowView>, n: int) -> bool {
    forall|k: int| 0 <= k < n ==> missing(rows[#[trigger] reading_order(rows)[k]]) is None
}

/// What an atuin history holds, oldest first, or what the first incomplete row lacks.
pub open spec fn atuin_history(rows: Seq<AtuinRowView>) -> Result<Seq<Sighting>, Seq<char>> {
    let order = reading_order(rows);
    if complete(rows, order.len() as int) {
        Ok(Seq::new(order.len(), |k: int| sighting(rows[order[k]])))
    } else {
        let k = choose|k: int|
            0 <= k < order.len() && complete(rows, k) && missing(
                rows[#[trigger] order[k]],
            ) is Some;
        Err(missing(rows[order[k]])->0)
    }
}

struct Reading<'a> {
    rows: &'a Vec<AtuinRow>,
}

impl<'a> IndexOrder for Reading<'a> {
    closed spec fn member(&self, i: int) -> bool {
        counts(atuin_rows(self.rows@), i)
    }

    closed spec fn before(&self, i: int, j: int) -> bool {
        read_before(atuin_rows(self.rows@), i, j)
    }

    fn bound(&self) -> (n: usize) {
        self.rows.len()
    }

    fn takes_part(&self, i: usize) -> (yes: bool) {
        i < self.rows.len() && !self.rows[i].deleted
    }

    proof fn strict(&self) {
        let rows = atuin_rows(self.rows@);
        lemma_reading_is_strict(rows);
        assert((|i: int| self.member(i)) =~= (|i: int| counts(rows, i)));
        assert((|i: int, j: int| self.before(i, j)) =~= (|i: int, j: int| read_before(rows, i, j)));
    }

    fn comes_before(&self, i: usize, j: usize) -> (yes: bool) {
        let a = &self.rows[i];
        let b = &self.rows[j];
        let same_time = match (a.timestamp, b.timestamp) {
            (None, None) => true,
            (None, Some(_)) => {
                return true;
            },
            (Some(_), None) => {
                return false;
            },
            (Some(x), Some(y)) => {
                if x < y {
                    return true;
                }
                x == y
            },
        };
        if !same_time {
            return false;
        }
        match (&a.id, &b.id) {
            (None, None) => i < j,
            (None, Some(_)) => true,
            (Some(_), None) => false,
            (Some(x), Some(y)) => {
                if *x == *y {
                    proof {
                        lemma_text_order(x@, y@);
                    }
                    i < j
                } else {
                    text_less(x.as_str(), y.as_str())
                }
            },
        }
    }
}

/// Whether one text comes before another, character by character.
fn text_less(a: &str, b: &str) -> (yes: bool)
    ensures
        yes == text_before(a@, b@),
{
    let x = chars_of(a);
    let y = chars_of(b);
    let mut i: usize = 0;
    proof {
        assert(x@.skip(0) =~= x@);
        assert(y@.skip(0) =~= y@);
    }
    while i < x.len() && i < y.len()
        invariant
            x@ == a@,
            y@ == b@,
            i <= x@.len(),
            i <= y@.len(),
            text_before(x@, y@) == text_before(x@.skip(i as int), y@.skip(i as int)),
        decreases x@.len() - i,
    {
        proof {
            assert(x@.skip(i as int).drop_first() =~= x@.skip(i + 1));
            assert(y@.skip(i as int).drop_first() =~= y@.skip(i + 1));
        }
        if x[i] < y[i] {
            return true;
        }
        if x[i] != y[i] {
            return false;
        }
        i += 1;
    }
    i < y.len()
}

/// The positions of the rows that count, in the order they are read.
fn reading_indices(rows: &Vec<AtuinRow>) -> (order: Vec<usize>)
    ensures
        indices(order@) == reading_order(atuin_rows(rows@)),
{
    let reading = Reading { rows };
    proof {
        let views = atuin_rows(rows@);
        assert((|i: int| reading.member(i)) =~= (|i: int| counts(views, i)));
        assert((|i: int, j: int| reading.before(i, j)) =~= (|i: int, j: int|
            read_before(views, i, j)));
    }
    arrange(&reading)
}

/// What an atuin history holds, oldest first, given its rows or why they could not be read.
///
/// Atuin stores nanoseconds and marks deleted commands, so scale down and skip tombstones.
pub fn read_atuin(path: &str, table: Result<Vec<AtuinRow>, String>) -> (out: Result<
    Vec<Observation>,
    ImportError,
>)
    ensures
        match table {
            Err(failure) => out matches Err(ImportError::Atuin { path: at, message }) && at@
                == path@ && message@ == failure@,
            Ok(rows) => match atuin_history(atuin_rows(rows@)) {
                Ok(history) => out matches Ok(read) && sightings(read@) == history,
                Err(fault) => out matches Err(ImportError::Atuin { path: at, message }) && at@
                    == path@ && message@ == fault,
            },
        },
{
    let rows = match table {
        Ok(rows) => rows,
        Err(message) => {
            return Err(ImportError::Atuin { path: path.to_owned(), message });
        },
    };
    let ghost views = atuin_rows(rows@);
    let order = reading_indices(&rows);
    let ghost reading = reading_order(views);
    proof {
        reading_is_oldest_first(views);
    }
    let mut out: Vec<Observation> = Vec::new();
    let mut k: usize = 0;
    while k < order.len()
        invariant
            k <= order@.len(),
            table == Ok::<Vec<AtuinRow>, String>(rows),
            views == atuin_rows(rows@),
            reading == reading_order(views),
            indices(order@) == reading,
            forall|k: int| 0 <= k < reading.len() ==> counts(views, #[trigger] reading[k]),
            complete(views, k as int),
            out@.len() == k,
            forall|i: int| 0 <= i < k ==> (#[trigger] out@[i])@ == sighting(views[reading[i]]),
        decreases order@.len() - k,
    {
        assert(reading[k as int] == order@[k as int]);
        assert(counts(views, reading[k as int]));
        let row = &rows[order[k]];
        assert(views[reading[k as int]] == row@);
        match (&row.command, row.timestamp) {
            (Some(command), Some(timestamp)) => {
                let observation = Observation {
                    cmd: command.clone(),
                    cwd: copy_optional(&row.cwd),
                    exit: row.exit,
                    ts: timestamp / 1_000_000_000,
                    session: copy_optional(&row.session),
                };
                assert(observation@ =~= sighting(row@));
                out.push(observation);
            },
            (None, _) => {
                proof {
                    lemma_first_missing(views, k as int);
                }
                return Err(
                    ImportError::Atuin {
                        path: path.to_owned(),
                        message: NULL_COMMAND.to_owned(),
                    },
                );
            },
            (Some(_), None) => {
                proof {
                    lemma_first_missing(views, k as int);
                }
                return Err(
                    ImportError::Atuin {
                        path: path.to_owned(),
                        message: NULL_TIMESTAMP.to_owned(),
                    },
                );
            },
        }
        k += 1;
    }
    assert(sightings(out@) =~= Seq::new(reading.len(), |k: int| sighting(views[reading[k]])));
    Ok(out)
}

proof fn lemma_first_missing(rows: Seq<AtuinRowView>, k: int)
    requires
        0 <= k < reading_order(rows).len(),
        complete(rows, k),
        missing(rows[reading_order(rows)[k]]) is Some,
    ensures
        atuin_history(rows) == Err::<Seq<Sighting>, Seq<char>>(
            missing(rows[reading_order(rows)[k]])->0,
        ),
{
    let order = reading_order(rows);
    assert(!complete(rows, order.len() as int));
    let c = choose|c: int|
        0 <= c < order.len() && complete(rows, c) && missing(rows[#[trigger] order[c]]) is Some;
    if c < k {
        assert(missing(rows[order[c]]) is None);
    }
    if k < c {
        assert(missing(rows[order[k]]) is None);
    }
}

// ---------------------------------------------------------------------------------------------
// Field by field
// ---------------------------------------------------------------------------------------------

/// A row of atuin's table says what its fields hold.
pub proof fn an_atuin_row_is_its_fields(row: AtuinRow)
    ensures
        row@.timestamp == row.timestamp,
        row@.exit == row.exit,
        row@.deleted == row.deleted,
        row@.id is Some <==> row.id is Some,
        row.id matches Some(id) ==> row@.id == Some(id@),
        row@.command is Some <==> row.command is Some,
        row.command matches Some(cmd) ==> row@.command == Some(cmd@),
        row@.cwd is Some <==> row.cwd is Some,
        row.cwd matches Some(dir) ==> row@.cwd == Some(dir@),
        row@.session is Some <==> row.session is Some,
        row.session matches Some(id) ==> row@.session == Some(id@),
{
}

/// The rows of a table keep their number, their order, and what they say.
pub proof fn atuin_rows_keep_their_places(rows: Seq<AtuinRow>)
    ensures
        atuin_rows(rows).len() == rows.len(),
        forall|i: int| 0 <= i < rows.len() ==> #[trigger] atuin_rows(rows)[i] == rows[i]@,
{
}

/// What is read of a row is its own: the command, the directory, the exit status, and the session
/// as they are, and the time in whole seconds.
pub proof fn a_row_keeps_every_field(row: AtuinRowView, cmd: Seq<char>, t: i64)
    requires
        row.command == Some(cmd),
        row.timestamp == Some(t),
    ensures
        sighting(row).cmd == cmd,
        sighting(row).cwd == row.cwd,
        sighting(row).exit == row.exit,
        sighting(row).session == row.session,
        t >= 0 ==> sighting(row).ts * 1_000_000_000 <= t < (sighting(row).ts + 1) * 1_000_000_000,
        t <= 0 ==> (sighting(row).ts - 1) * 1_000_000_000 < t <= sighting(row).ts * 1_000_000_000,
{
}

/// Rows are read by time, between equal times by id, and between equal ids as they come; one
/// without a time comes before all that have one. Every row that is not deleted is read, once.
pub proof fn rows_are_read_by_time_and_id(rows: Seq<AtuinRowView>)
    ensures
        ({
            let order = reading_order(rows);
            &&& order.no_duplicates()
            &&& forall|i: int|
                0 <= i < rows.len() && !(#[trigger] rows[i]).deleted ==> order.contains(i)
            &&& forall|k: int|
                0 <= k < order.len() ==> 0 <= #[trigger] order[k] < rows.len()
                    && !rows[order[k]].deleted
            &&& forall|a: int, b: int|
                0 <= a < b < order.len() ==> {
                    let x = rows[#[trigger] order[a]];
                    let y = rows[#[trigger] order[b]];
                    ||| x.timestamp is None && y.timestamp is Some
                    ||| x.timestamp is Some && y.timestamp is Some && x.timestamp->0
                        < y.timestamp->0
                    ||| x.timestamp == y.timestamp && id_before(x.id, y.id)
                    ||| x.timestamp == y.timestamp && x.id == y.id && order[a] < order[b]
                }
        }),
{
    let order = reading_order(rows);
    let member = |i: int| counts(rows, i);
    let before = |i: int, j: int| read_before(rows, i, j);
    lemma_reading_is_strict(rows);
    arrangement_exists(rows.len(), member, before);
    assert forall|k: int| 0 <= k < order.len() implies 0 <= #[trigger] order[k] < rows.len()
        && !rows[order[k]].deleted by {
        assert(member(order[k]));
    }
    assert forall|i: int| 0 <= i < rows.len() && !(#[trigger] rows[i]).deleted implies
        order.contains(i) by {
        assert(member(i));
    }
    assert forall|a: int, b: int| 0 <= a < b < order.len() implies read_before(
        rows,
        #[trigger] order[a],
        #[trigger] order[b],
    ) && order[a] != order[b] by {
        assert(before(order[a], order[b]));
        assert(member(order[a]) && member(order[b]));
        assert(!before(order[a], order[a]));
    }
    assert(order.no_duplicates()) by {
        assert forall|a: int, b: int|
            0 <= a < order.len() && 0 <= b < order.len() && a != b implies order[a]
            != order[b] by {
            if a < b {
                assert(read_before(rows, order[a], order[b]) && order[a] != order[b]);
            } else {
                assert(read_before(rows, order[b], order[a]) && order[b] != order[a]);
            }
        }
    }
}

/// An atuin history is every row that is not deleted, each with its own fields, in the order in
/// which rows are read.
pub proof fn an_atuin_history_is_the_rows_that_count(rows: Seq<AtuinRowView>)
    requires
        forall|i: int|
            0 <= i < rows.len() && !(#[trigger] rows[i]).deleted ==> rows[i].command is Some
                && rows[i].timestamp is Some,
    ensures
        atuin_history(rows) matches Ok(history) && {
            let order = reading_order(rows);
            &&& history.len() == order.len()
            &&& forall|k: int|
                0 <= k < order.len() ==> {
                    let i = #[trigger] order[k];
                    let t = rows[i].timestamp->0;
                    &&& 0 <= i < rows.len()
                    &&& !rows[i].deleted
                    &&& rows[i].command == Some(history[k].cmd)
                    &&& rows[i].cwd == history[k].cwd
                    &&& rows[i].exit == history[k].exit
                    &&& rows[i].session == history[k].session
                    &&& t >= 0 ==> history[k].ts * 1_000_000_000 <= t < (history[k].ts + 1)
                        * 1_000_000_000
                    &&& t <= 0 ==> (history[k].ts - 1) * 1_000_000_000 < t <= history[k].ts
                        * 1_000_000_000
                }
        },
{
    let order = reading_order(rows);
    rows_are_read_by_time_and_id(rows);
    assert forall|k: int| 0 <= k < order.len() implies missing(
        rows[#[trigger] order[k]],
    ) is None by {
        assert(!rows[order[k]].deleted);
    }
    assert(complete(rows, order.len() as int));
    assert forall|k: int| 0 <= k < order.len() implies {
        let i = #[trigger] order[k];
        0 <= i < rows.len() && !rows[i].deleted && rows[i].command is Some && rows[i].timestamp
            is Some
    } by {
        assert(!rows[order[k]].deleted);
    }
}

/// Ids are ordered as texts: by the first character in which they differ, and a text before what it
/// is the start of. A missing id comes first.
pub proof fn ids_are_ordered_as_texts(
    start: Seq<char>,
    a: Seq<char>,
    b: Seq<char>,
    c: char,
    d: char,
)
    ensures
        c < d ==> id_before(Some(start + seq![c] + a), Some(start + seq![d] + b)) && !id_before(
            Some(start + seq![d] + b),
            Some(start + seq![c] + a),
        ),
        id_before(Some(start), Some(start + seq![c] + a)),
        id_before(None, Some(start)),
        !id_before(Some(start), None),
        !id_before(Some(start), Some(start)),
        !id_before(None, None),
    decreases start.len(),
{
    let x = start + seq![c] + a;
    let y = start + seq![d] + b;
    lemma_text_order(start, start);
    if start.len() > 0 {
        let rest = start.drop_first();
        ids_are_ordered_as_texts(rest, a, b, c, d);
        assert(x.drop_first() =~= rest + seq![c] + a);
        assert(y.drop_first() =~= rest + seq![d] + b);
    } else {
        assert(x[0] == c && y[0] == d);
    }
}

/// A row that counts and lacks its command or its time fails the import, with what the first such
/// row in the order of reading lacks.
pub proof fn an_incomplete_row_fails_the_import(rows: Seq<AtuinRowView>, k: int)
    requires
        0 <= k < reading_order(rows).len(),
        forall|j: int|
            0 <= j < k ==> rows[#[trigger] reading_order(rows)[j]].command is Some
                && rows[reading_order(rows)[j]].timestamp is Some,
    ensures
        rows[reading_order(rows)[k]].command is None ==> atuin_history(rows) == Err::<
            Seq<Sighting>,
            Seq<char>,
        >("Invalid column type Null at index: 0, name: command"@),
        rows[reading_order(rows)[k]].command is Some && rows[reading_order(
            rows,
        )[k]].timestamp is None ==> atuin_history(rows) == Err::<Seq<Sighting>, Seq<char>>(
            "Invalid column type Null at index: 3, name: timestamp / 1000000000"@,
        ),
{
    let order = reading_order(rows);
    if missing(rows[order[k]]) is Some {
        assert forall|j: int| 0 <= j < k implies missing(rows[#[trigger] order[j]]) is None by {}
        assert(complete(rows, k));
        lemma_first_missing(rows, k);
    }
}

} // verus!
