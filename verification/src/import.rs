//! Fill the db from Atuin, Bash, Zsh, or Fish history.
//!
//! Each shell owns its own on-disk format, and none of them are documented as an interchange
//! format. Every parser here links the upstream reference it was written against.
//!
//! Import refuses a file it cannot read fully rather than keeping the lines it understood. A
//! partial import looks like a complete one, and the command that got dropped is the one you go
//! looking for later.

use vstd::prelude::*;
use vstd::utf8::{decode_utf8, encode_utf8, valid_utf8};

use crate::db::{data_dir_from, data_root, sightings, Db, DbError, Observation};
use crate::import::bash::{bash_entries, parse_bash};
use crate::import::entry::{first_from, imported, lemma_first_from};
use crate::import::fish::{fish_history, parse_fish};
use crate::import::zsh::{header, parse_zsh, zsh_header, zsh_history};
use crate::order::{
    arrange, arranged, arrangement, arrangement_exists, arrangement_holds_each_once, indices,
    strict_order, IndexOrder,
};
use crate::paths::{assigned, extend, extended, file_name, is_named, last_name, optional_path};
use crate::table::{
    a_batch_recorded_in_order_is_listed_backwards, all_refreshed, newest, record, recorded,
    replayed, replaying_twice_is_replaying_once, writing_the_refreshed_rows_stores_a_batch, written,
    Row, Sighting,
};
use crate::text::{
    blank, chars_of, copy_optional, has_prefix, is_blank, lines,
    slices, split_lines, strip_prefix, trim_chars, trimmed,
};

pub mod atuin;
pub mod bash;
pub mod entry;
pub mod fish;
pub mod zsh;

verus! {

/// `NoSource` means no atuin db, no HISTFILE, and no history file for $SHELL. `Format` means the
/// file was read but does not hold the format detection said it did.
#[derive(Debug)]
pub enum ImportError {
    NoSource,
    Read { path: String, message: String },
    Format { path: String, message: String },
    Atuin { path: String, message: String },
    Db(DbError),
}

impl ImportError {
    /// The message shown to the user. Import failures point at a file the user can go look at, so
    /// every variant that has one names it.
    pub open spec fn text(&self) -> Seq<char> {
        match self {
            ImportError::NoSource => "nothing to import: no atuin db and no history file"@,
            ImportError::Read { path, message } => "cannot read "@ + path@ + ": "@ + message@,
            ImportError::Format { path, message } => "cannot parse "@ + path@ + ": "@ + message@,
            ImportError::Atuin { path, message } => "cannot read the atuin db at "@ + path@ + ": "@
                + message@,
            ImportError::Db(error) => error.text(),
        }
    }

    /// The message shown to the user.
    pub fn to_string(&self) -> (out: String)
        ensures
            out@ == self.text(),
    {
        match self {
            ImportError::NoSource => {
                "nothing to import: no atuin db and no history file".to_owned()
            },
            ImportError::Read { path, message } => located("cannot read ", path, message),
            ImportError::Format { path, message } => located("cannot parse ", path, message),
            ImportError::Atuin { path, message } => {
                located("cannot read the atuin db at ", path, message)
            },
            ImportError::Db(error) => error.to_string(),
        }
    }
}

fn located(what: &str, path: &String, message: &String) -> (out: String)
    ensures
        out@ == what@ + path@ + ": "@ + message@,
{
    let mut out = what.to_owned();
    out.append(path.as_str());
    out.append(": ");
    out.append(message.as_str());
    out
}

// ---------------------------------------------------------------------------------------------
// Where to import from
// ---------------------------------------------------------------------------------------------

#[derive(Clone, Copy, Debug, Eq, PartialEq, Structural)]
pub enum Format {
    /// Read the format off the file itself. What HISTFILE gets, since the variable says nothing
    /// about which shell wrote it.
    Detect,
    Bash,
    Zsh,
    Fish,
}

/// Where the history is coming from. Atuin is a sqlite db read directly; everything else is a
/// text file needing a parser.
#[derive(Debug)]
pub enum Source {
    Atuin(Vec<u8>),
    Text { path: Vec<u8>, format: Format },
}

/// What a [`Source`] names.
#[verifier::ext_equal]
pub enum SourceView {
    Atuin(Seq<u8>),
    Text { path: Seq<u8>, format: Format },
}

impl View for Source {
    type V = SourceView;

    open spec fn view(&self) -> SourceView {
        match self {
            Source::Atuin(path) => SourceView::Atuin(path@),
            Source::Text { path, format } => SourceView::Text { path: path@, format: *format },
        }
    }
}

/// The environment variables that say where history is.
#[derive(Debug)]
pub struct Environment {
    pub xdg_data_home: Option<Vec<u8>>,
    pub home: Option<Vec<u8>>,
    pub histfile: Option<Vec<u8>>,
    pub shell: Option<Vec<u8>>,
}

/// Which of the files that history may be in are there.
#[derive(Clone, Copy, Debug)]
pub struct Found {
    pub atuin: bool,
    pub fish: bool,
    pub bash: bool,
}

impl Environment {
    /// The XDG data root.
    pub open spec fn data(&self) -> Option<Seq<u8>> {
        data_root(optional_path(self.xdg_data_home), optional_path(self.home))
    }

    /// Where atuin keeps its history.
    pub open spec fn atuin_file(&self) -> Option<Seq<u8>> {
        match self.data() {
            Some(dir) => Some(extended(extended(dir, "atuin"@), "history.db"@)),
            None => None,
        }
    }

    /// Where fish keeps its history.
    /// https://fishshell.com/docs/current/interactive.html#searchable-command-history
    pub open spec fn fish_file(&self) -> Option<Seq<u8>> {
        match self.data() {
            Some(dir) => Some(extended(extended(dir, "fish"@), "fish_history"@)),
            None => None,
        }
    }

    /// Where bash keeps its history.
    pub open spec fn bash_file(&self) -> Option<Seq<u8>> {
        if assigned(optional_path(self.home)) {
            Some(extended(self.home->0@, ".bash_history"@))
        } else {
            None
        }
    }

    /// Whether $SHELL is a shell of this name, wherever it is installed.
    pub open spec fn runs(&self, name: Seq<char>) -> bool {
        assigned(optional_path(self.shell)) && file_name(self.shell->0@) == Some(encode_utf8(name))
    }

    /// Where atuin keeps its history.
    pub fn atuin_path(&self) -> (path: Option<Vec<u8>>)
        ensures
            optional_path(path) == self.atuin_file(),
    {
        match self.data_dir() {
            Some(dir) => {
                let atuin = extend(dir.as_slice(), "atuin");
                Some(extend(atuin.as_slice(), "history.db"))
            },
            None => None,
        }
    }

    /// Where fish keeps its history.
    pub fn fish_path(&self) -> (path: Option<Vec<u8>>)
        ensures
            optional_path(path) == self.fish_file(),
    {
        match self.data_dir() {
            Some(dir) => {
                let fish = extend(dir.as_slice(), "fish");
                Some(extend(fish.as_slice(), "fish_history"))
            },
            None => None,
        }
    }

    /// Where bash keeps its history.
    pub fn bash_path(&self) -> (path: Option<Vec<u8>>)
        ensures
            optional_path(path) == self.bash_file(),
    {
        match &self.home {
            Some(home) => if home.len() > 0 {
                Some(extend(home.as_slice(), ".bash_history"))
            } else {
                None
            },
            None => None,
        }
    }

    fn data_dir(&self) -> (dir: Option<Vec<u8>>)
        ensures
            optional_path(dir) == self.data(),
    {
        let xdg = copy_path(&self.xdg_data_home);
        let home = copy_path(&self.home);
        match data_dir_from(xdg, home) {
            Ok(dir) => Some(dir),
            Err(_) => None,
        }
    }

    fn is_shell(&self, name: &str) -> (yes: bool)
        ensures
            yes == self.runs(name@),
    {
        match &self.shell {
            Some(shell) => if shell.len() > 0 {
                match last_name(shell.as_slice()) {
                    Some(last) => is_named(last, name),
                    None => false,
                }
            } else {
                false
            },
            None => false,
        }
    }
}

fn copy_path(path: &Option<Vec<u8>>) -> (copy: Option<Vec<u8>>)
    ensures
        optional_path(copy) == optional_path(*path),
{
    match path {
        Some(p) => {
            let copy = vstd::slice::slice_to_vec(p.as_slice());
            assert(copy@ =~= p@);
            Some(copy)
        },
        None => None,
    }
}

/// A history file, if it is there.
pub open spec fn existing(path: Option<Seq<u8>>, format: Format, exists: bool) -> Option<
    SourceView,
> {
    match path {
        Some(p) => if exists {
            Some(SourceView::Text { path: p, format })
        } else {
            None
        },
        None => None,
    }
}

/// Where to import from. Atuin wins, then HISTFILE, then the default history file for $SHELL.
pub open spec fn chosen(env: Environment, found: Found) -> Option<SourceView> {
    if env.atuin_file() is Some && found.atuin {
        Some(SourceView::Atuin(env.atuin_file()->0))
    } else if assigned(optional_path(env.histfile)) {
        Some(SourceView::Text { path: env.histfile->0@, format: Format::Detect })
    } else if env.runs("fish"@) {
        existing(env.fish_file(), Format::Fish, found.fish)
    } else if env.runs("zsh"@) {
        None
    } else {
        existing(env.bash_file(), Format::Bash, found.bash)
    }
}

fn existing_source(path: Option<Vec<u8>>, format: Format, exists: bool) -> (source: Result<
    Source,
    ImportError,
>)
    ensures
        match source {
            Ok(s) => existing(optional_path(path), format, exists) == Some(s@),
            Err(error) => error is NoSource && existing(
                optional_path(path),
                format,
                exists,
            ) is None,
        },
{
    match path {
        Some(path) => if exists {
            Ok(Source::Text { path, format })
        } else {
            Err(ImportError::NoSource)
        },
        None => Err(ImportError::NoSource),
    }
}

/// Pick where to import from. Atuin wins, then HISTFILE, then the default history file for
/// $SHELL.
///
/// The choice is final. Once a source is picked, failing to read it is an error, not a reason to
/// try the next one: importing some other shell's history because the chosen file was missing
/// would be worse than failing.
pub fn locate_source(env: &Environment, found: Found) -> (source: Result<Source, ImportError>)
    ensures
        match source {
            Ok(s) => chosen(*env, found) == Some(s@),
            Err(error) => error is NoSource && chosen(*env, found) is None,
        },
{
    if found.atuin {
        if let Some(path) = env.atuin_path() {
            return Ok(Source::Atuin(path));
        }
    }
    if let Some(histfile) = &env.histfile {
        if histfile.len() > 0 {
            let path = vstd::slice::slice_to_vec(histfile.as_slice());
            assert(path@ =~= histfile@);
            return Ok(Source::Text { path, format: Format::Detect });
        }
    }
    if env.is_shell("fish") {
        return existing_source(env.fish_path(), Format::Fish, found.fish);
    }
    // Zsh has no default history path. Guessing one risks importing some other shell's file, so
    // ask for HISTFILE instead.
    if env.is_shell("zsh") {
        return Err(ImportError::NoSource);
    }
    // An unset or unrecognized SHELL is most often bash.
    existing_source(env.bash_path(), Format::Bash, found.bash)
}

/// An atuin database that is there is chosen whatever else is.
pub proof fn atuin_wins(env: Environment, found: Found)
    requires
        env.atuin_file() is Some,
        found.atuin,
    ensures
        chosen(env, found) == Some(SourceView::Atuin(env.atuin_file()->0)),
{
}

/// Without one, HISTFILE is chosen whether or not any file is there, so a missing one fails
/// instead of falling back.
pub proof fn histfile_beats_the_shell(env: Environment, found: Found)
    requires
        !found.atuin,
        assigned(optional_path(env.histfile)),
    ensures
        chosen(env, found) == Some(
            SourceView::Text { path: env.histfile->0@, format: Format::Detect },
        ),
{
}

/// Zsh is never given a default file.
pub proof fn zsh_guesses_no_file(env: Environment, found: Found)
    requires
        !found.atuin,
        !assigned(optional_path(env.histfile)),
        env.runs("zsh"@),
    ensures
        chosen(env, found) is None,
{
    if env.runs("fish"@) {
        reveal_strlit("fish");
        reveal_strlit("zsh");
        vstd::utf8::encode_utf8_decode_utf8("fish"@);
        vstd::utf8::encode_utf8_decode_utf8("zsh"@);
        assert("fish"@.len() != "zsh"@.len());
    }
}

// ---------------------------------------------------------------------------------------------
// Text history
// ---------------------------------------------------------------------------------------------

/// What a history file's bytes read as.
pub uninterp spec fn decoded(bytes: Seq<u8>) -> Seq<char>;

/// [`String::from_utf8_lossy`]. The text depends on the bytes alone. Valid UTF-8 comes out as the
/// characters it encodes; which characters stand for the bytes that are not is left open.
#[verifier::external_body]
fn decode_lossy(bytes: &[u8]) -> (text: String)
    ensures
        text@ == decoded(bytes@),
        valid_utf8(bytes@) ==> text@ == decode_utf8(bytes@),
{
    String::from_utf8_lossy(bytes).into_owned()
}

/// The first line with anything on it, without the blanks around it.
pub open spec fn first_words(text: Seq<char>) -> Option<Seq<char>> {
    let all = lines(text);
    match first_from(0, all.len() as int, |i: int| !blank(all[i])) {
        Some(i) => Some(trimmed(all[i])),
        None => None,
    }
}

/// The format that a file's first words show. Only Zsh and Fish are identifiable; Bash is the
/// fallback because its plain form has no marker.
pub open spec fn detected(text: Seq<char>) -> Format {
    match first_words(text) {
        Some(line) => if has_prefix(line, "- cmd: "@) {
            Format::Fish
        } else if header(line) is Some {
            Format::Zsh
        } else {
            Format::Bash
        },
        None => Format::Bash,
    }
}

/// What a text holds in a given format, or what is wrong with it.
pub open spec fn text_history(text: Seq<char>, format: Format, fallback_ts: i64) -> Result<
    Seq<Sighting>,
    Seq<char>,
> {
    match format {
        Format::Fish => fish_history(text, fallback_ts),
        Format::Zsh => zsh_history(text),
        _ => Ok(imported(bash_entries(lines(text), fallback_ts))),
    }
}

/// Guess a format from the first non-blank line.
pub fn detect_format(text: &str) -> (format: Format)
    ensures
        format == detected(text@),
{
    let chars = chars_of(text);
    let parts = split_lines(chars.as_slice());
    let ghost all = lines(text@);
    let ghost filled = |i: int| !blank(all[i]);
    let mut i: usize = 0;
    while i < parts.len()
        invariant
            i <= parts@.len(),
            all == slices(parts@),
            all == lines(text@),
            filled == (|i: int| !blank(all[i])),
            forall|k: int| 0 <= k < i ==> !#[trigger] filled(k),
        decreases parts@.len() - i,
    {
        assert(all[i as int] == parts@[i as int]@);
        if !is_blank(parts[i]) {
            proof {
                assert(filled(i as int));
                lemma_first_from(0, all.len() as int, filled, i as int);
            }
            let line = trim_chars(parts[i]);
            if strip_prefix(line, "- cmd: ").is_some() {
                return Format::Fish;
            }
            if zsh_header(line).is_some() {
                return Format::Zsh;
            }
            return Format::Bash;
        }
        i += 1;
    }
    proof {
        lemma_first_from(0, all.len() as int, filled, all.len() as int);
    }
    Format::Bash
}

/// Parse a history in a known format.
pub fn parse_text(text: &str, format: Format, fallback_ts: i64) -> (rows: Result<
    Vec<Observation>,
    String,
>)
    requires
        format != Format::Detect,
    ensures
        match rows {
            Ok(out) => text_history(text@, format, fallback_ts) == Ok::<Seq<Sighting>, Seq<char>>(
                sightings(out@),
            ),
            Err(message) => text_history(text@, format, fallback_ts) == Err::<
                Seq<Sighting>,
                Seq<char>,
            >(message@),
        },
{
    match format {
        Format::Zsh => parse_zsh(text),
        Format::Fish => parse_fish(text, fallback_ts),
        _ => Ok(parse_bash(text, fallback_ts)),
    }
}

/// What a decoded history file holds when it is read in the requested format, or in the one it
/// shows.
pub open spec fn file_history(text: Seq<char>, requested: Format, now: i64) -> Result<
    Seq<Sighting>,
    Seq<char>,
> {
    text_history(
        text,
        if requested == Format::Detect {
            detected(text)
        } else {
            requested
        },
        now,
    )
}

/// Read a history file that has been decoded. Commands without a time of their own get `now`.
pub fn read_decoded(path: &str, text: &str, requested: Format, now: i64) -> (out: Result<
    Vec<Observation>,
    ImportError,
>)
    ensures
        match file_history(text@, requested, now) {
            Ok(history) => out matches Ok(rows) && sightings(rows@) == history,
            Err(fault) => out matches Err(ImportError::Format { path: at, message }) && at@ == path@
                && message@ == fault,
        },
{
    let format = match requested {
        Format::Detect => detect_format(text),
        format => format,
    };
    match parse_text(text, format, now) {
        Ok(rows) => Ok(rows),
        Err(message) => Err(ImportError::Format { path: path.to_owned(), message }),
    }
}

/// Read a history file, given its bytes or why they could not be read. History files can hold
/// arbitrary bytes, so they are decoded lossily.
pub fn read_text(
    path: &str,
    contents: Result<Vec<u8>, String>,
    requested: Format,
    now: i64,
) -> (out: Result<Vec<Observation>, ImportError>)
    ensures
        match contents {
            Err(failure) => out matches Err(ImportError::Read { path: at, message }) && at@ == path@
                && message@ == failure@,
            Ok(bytes) => match file_history(decoded(bytes@), requested, now) {
                Ok(history) => out matches Ok(rows) && sightings(rows@) == history,
                Err(fault) => out matches Err(ImportError::Format { path: at, message }) && at@
                    == path@ && message@ == fault,
            },
        },
        contents matches Ok(bytes) ==> valid_utf8(bytes@) ==> decoded(bytes@) == decode_utf8(
            bytes@,
        ),
{
    let bytes = match contents {
        Ok(bytes) => bytes,
        Err(message) => {
            return Err(ImportError::Read { path: path.to_owned(), message });
        },
    };
    let text = decode_lossy(bytes.as_slice());
    read_decoded(path, text.as_str(), requested, now)
}

// ---------------------------------------------------------------------------------------------
// Merging
// ---------------------------------------------------------------------------------------------

/// Whether row `i` is applied before row `j`: the older first, and rows of the same second as
/// they come.
pub open spec fn applied_before(rows: Seq<Sighting>, i: int, j: int) -> bool {
    rows[i].ts < rows[j].ts || (rows[i].ts == rows[j].ts && i < j)
}

/// The positions of the rows, oldest first.
pub open spec fn time_order(rows: Seq<Sighting>) -> Seq<int> {
    arrangement(|i: int| 0 <= i < rows.len(), |i: int, j: int| applied_before(rows, i, j))
}

/// The rows, oldest first.
pub open spec fn by_time(rows: Seq<Sighting>) -> Seq<Sighting> {
    let order = time_order(rows);
    Seq::new(order.len(), |k: int| rows[order[k]])
}

/// The table after importing rows.
pub open spec fn merged(table: Seq<Row>, rows: Seq<Sighting>) -> Seq<Row> {
    replayed(table, recorded(by_time(rows)))
}

struct ByTime<'a> {
    rows: &'a Vec<Observation>,
}

impl<'a> IndexOrder for ByTime<'a> {
    closed spec fn member(&self, i: int) -> bool {
        0 <= i < self.rows@.len()
    }

    closed spec fn before(&self, i: int, j: int) -> bool {
        applied_before(sightings(self.rows@), i, j)
    }

    fn bound(&self) -> (n: usize) {
        self.rows.len()
    }

    fn takes_part(&self, i: usize) -> (yes: bool) {
        i < self.rows.len()
    }

    proof fn strict(&self) {
    }

    fn comes_before(&self, i: usize, j: usize) -> (yes: bool) {
        let a = self.rows[i].ts;
        let b = self.rows[j].ts;
        a < b || (a == b && i < j)
    }
}

/// The rows, oldest first, those of the same second in the order given. Sorting keeps that order
/// because it is the best evidence available for history that carries no timestamps at all.
fn sort_by_time(rows: &Vec<Observation>) -> (sorted: Vec<Observation>)
    ensures
        sightings(sorted@) == by_time(sightings(rows@)),
{
    let by = ByTime { rows };
    let order = arrange(&by);
    let ghost views = sightings(rows@);
    proof {
        assert((|i: int| by.member(i)) =~= (|i: int| 0 <= i < views.len()));
        assert((|i: int, j: int| by.before(i, j)) =~= (|i: int, j: int|
            applied_before(views, i, j)));
        rows_are_applied_oldest_first(views);
        assert forall|i: int| 0 <= i < order@.len() implies #[trigger] order@[i] < rows@.len() by {
            assert(time_order(views)[i] == order@[i]);
        }
    }
    let mut out: Vec<Observation> = Vec::new();
    let mut k: usize = 0;
    while k < order.len()
        invariant
            k <= order@.len(),
            views == sightings(rows@),
            indices(order@) == time_order(views),
            forall|i: int| 0 <= i < order@.len() ==> #[trigger] order@[i] < rows@.len(),
            out@.len() == k,
            forall|i: int| 0 <= i < k ==> (#[trigger] out@[i])@ == views[order@[i] as int],
        decreases order@.len() - k,
    {
        assert(order@[k as int] < rows@.len());
        let row = &rows[order[k]];
        let copy = Observation {
            cmd: row.cmd.clone(),
            cwd: copy_optional(&row.cwd),
            exit: row.exit,
            ts: row.ts,
            session: copy_optional(&row.session),
        };
        assert(copy@ =~= row@);
        out.push(copy);
        k += 1;
    }
    proof {
        assert(sightings(out@) =~= by_time(views)) by {
            assert forall|i: int| 0 <= i < out@.len() implies #[trigger] sightings(out@)[i]
                == by_time(views)[i] by {
                assert(time_order(views)[i] == order@[i] as int);
            }
        }
    }
    out
}

/// Import into `db` and report how many rows were recorded, given the history or why it could not
/// be read. Safe to run more than once: [`Db::observe_all`] merges rather than appends.
///
/// Rows are applied oldest first, so that refreshing a row leaves commands of the same second in
/// the order they were run. A history that could not be read leaves the table untouched.
pub fn run(db: &mut Db, rows: Result<Vec<Observation>, ImportError>) -> (count: Result<
    u64,
    ImportError,
>)
    requires
        old(db).well_formed(),
    ensures
        final(db).well_formed(),
        match rows {
            Ok(history) => {
                &&& final(db)@ == merged(old(db)@, sightings(history@))
                &&& final(db).fresh() == all_refreshed(
                    old(db)@,
                    old(db).fresh(),
                    recorded(by_time(sightings(history@))),
                )
                &&& count matches Ok(n) && n == recorded(by_time(sightings(history@))).len()
            },
            Err(error) => {
                &&& final(db)@ == old(db)@
                &&& final(db).fresh() == old(db).fresh()
                &&& count == Err::<u64, ImportError>(error)
            },
        },
{
    match rows {
        Ok(rows) => Ok(db.observe_all(sort_by_time(&rows))),
        Err(error) => Err(error),
    }
}

/// Every row is applied once, never one after a newer one.
pub proof fn rows_are_applied_oldest_first(rows: Seq<Sighting>)
    ensures
        time_order(rows).len() == rows.len(),
        time_order(rows).no_duplicates(),
        forall|k: int|
            0 <= k < time_order(rows).len() ==> 0 <= #[trigger] time_order(rows)[k] < rows.len(),
        forall|i: int| 0 <= i < rows.len() ==> #[trigger] time_order(rows).contains(i),
        forall|a: int, b: int|
            0 <= a < b < time_order(rows).len() ==> applied_before(
                rows,
                #[trigger] time_order(rows)[a],
                #[trigger] time_order(rows)[b],
            ),
{
    let member = |i: int| 0 <= i < rows.len();
    let before = |i: int, j: int| applied_before(rows, i, j);
    assert(strict_order(member, before));
    arrangement_exists(rows.len(), member, before);
    let order = time_order(rows);
    assert(arranged(order, member, before));
    arrangement_holds_each_once(order, rows.len(), before);
    assert forall|k: int| 0 <= k < order.len() implies 0 <= #[trigger] order[k] < rows.len() by {
        assert(member(order[k]));
    }
    assert forall|i: int| 0 <= i < rows.len() implies #[trigger] order.contains(i) by {
        assert(member(i));
    }
    assert forall|a: int, b: int| 0 <= a < b < order.len() implies applied_before(
        rows,
        #[trigger] order[a],
        #[trigger] order[b],
    ) by {
        assert(before(order[a], order[b]));
    }
}

/// Importing the same history again changes nothing: not the rows, and not their order.
pub proof fn importing_twice_is_importing_once(table: Seq<Row>, rows: Seq<Sighting>)
    ensures
        merged(merged(table, rows), rows) == merged(table, rows),
{
    replaying_twice_is_replaying_once(table, recorded(by_time(rows)));
}

/// An import stores only the rows it refreshed: written over the table, they give the merged one.
pub proof fn an_import_writes_only_what_it_refreshed(table: Seq<Row>, rows: Seq<Sighting>)
    ensures
        written(table, all_refreshed(table, Seq::empty(), recorded(by_time(rows)))) == merged(
            table,
            rows,
        ),
{
    writing_the_refreshed_rows_stores_a_batch(table, recorded(by_time(rows)));
}

/// A history of different commands imported into an empty table is listed newest first, and
/// commands of the same second in the opposite order of the file.
pub proof fn an_import_keeps_the_order_of_the_file(rows: Seq<Sighting>)
    requires
        forall|i: int|
            0 <= i < rows.len() ==> !blank((#[trigger] rows[i]).cmd) && trimmed(rows[i].cmd)
                == rows[i].cmd,
        forall|i: int, j: int|
            0 <= i < j < rows.len() ==> (#[trigger] rows[i]).cmd != (#[trigger] rows[j]).cmd,
    ensures
        newest(merged(Seq::empty(), rows), rows.len()) == Seq::new(
            rows.len(),
            |k: int| record(by_time(rows)[rows.len() - 1 - k]),
        ),
{
    let sorted = by_time(rows);
    let order = time_order(rows);
    rows_are_applied_oldest_first(rows);
    assert forall|k: int| 0 <= k < sorted.len() implies !blank((#[trigger] sorted[k]).cmd)
        && trimmed(sorted[k].cmd) == sorted[k].cmd by {
        assert(0 <= order[k] < rows.len());
        assert(sorted[k] == rows[order[k]]);
    }
    lemma_recorded_as_given(sorted);
    assert forall|i: int, j: int| 0 <= i < j < sorted.len() implies (#[trigger] sorted[i]).cmd != (
    #[trigger] sorted[j]).cmd && sorted[i].ts <= sorted[j].ts by {
        assert(applied_before(rows, order[i], order[j]));
        if order[i] < order[j] {
            assert(rows[order[i]].cmd != rows[order[j]].cmd);
        } else {
            assert(rows[order[j]].cmd != rows[order[i]].cmd);
        }
    }
    a_batch_recorded_in_order_is_listed_backwards(sorted);
}

proof fn lemma_recorded_as_given(rows: Seq<Sighting>)
    requires
        forall|i: int|
            0 <= i < rows.len() ==> !blank((#[trigger] rows[i]).cmd) && trimmed(rows[i].cmd)
                == rows[i].cmd,
    ensures
        recorded(rows) == rows,
    decreases rows.len(),
{
    if rows.len() > 0 {
        let earlier = rows.drop_last();
        assert forall|i: int| 0 <= i < earlier.len() implies !blank((#[trigger] earlier[i]).cmd)
            && trimmed(earlier[i].cmd) == earlier[i].cmd by {
            assert(earlier[i] == rows[i]);
        }
        lemma_recorded_as_given(earlier);
        assert(!blank(rows[rows.len() - 1].cmd));
        assert(recorded(rows) =~= earlier.push(rows.last()));
        assert(earlier.push(rows.last()) =~= rows);
    } else {
        assert(rows =~= Seq::empty());
    }
}

// ---------------------------------------------------------------------------------------------
// What the choices come down to
// ---------------------------------------------------------------------------------------------

/// A source names the path and the format that it holds.
pub proof fn a_source_is_its_fields(atuin: Vec<u8>, path: Vec<u8>, format: Format)
    ensures
        Source::Atuin(atuin)@ == SourceView::Atuin(atuin@),
        (Source::Text { path, format })@ == (SourceView::Text { path: path@, format }),
{
}

/// Atuin and fish keep their history under the data root, and bash in the home directory.
pub proof fn history_files_are_where_the_shells_keep_them(env: Environment)
    ensures
        ({
            let root = data_root(optional_path(env.xdg_data_home), optional_path(env.home));
            &&& root matches Some(dir) ==> {
                &&& env.atuin_file() == Some(extended(extended(dir, "atuin"@), "history.db"@))
                &&& env.fish_file() == Some(extended(extended(dir, "fish"@), "fish_history"@))
            }
            &&& root is None ==> env.atuin_file() is None && env.fish_file() is None
        }),
        env.home matches Some(home) ==> home@.len() > 0 ==> env.bash_file() == Some(
            extended(home@, ".bash_history"@),
        ),
        env.home matches Some(home) ==> home@.len() == 0 ==> env.bash_file() is None,
        env.home is None ==> env.bash_file() is None,
{
}

/// The shell is told by the last part of `$SHELL`.
pub proof fn the_shell_is_told_by_its_file_name(env: Environment, name: Seq<char>)
    ensures
        env.runs(name) <==> (env.shell matches Some(path) && file_name(path@) == Some(
            encode_utf8(name),
        )),
{
    if let Some(path) = env.shell {
        if path@.len() == 0 {
            assert(path@ =~= Seq::empty());
        }
    }
}

/// Where to import from, in order: an atuin database that is there, then whatever `HISTFILE` names,
/// there or not, to be read in the format it shows; then the file of the shell if it is there, for
/// fish its own, for zsh none, and for any other that of bash.
pub proof fn the_source_is_chosen_in_order(env: Environment, found: Found, histfile: Seq<u8>)
    requires
        histfile.len() > 0,
    ensures
        found.atuin && env.atuin_file() is Some ==> chosen(env, found) == Some(
            SourceView::Atuin(env.atuin_file()->0),
        ),
        !(found.atuin && env.atuin_file() is Some) ==> {
            let unset = env.histfile matches Some(path) ==> path@.len() == 0;
            &&& optional_path(env.histfile) == Some(histfile) ==> chosen(env, found) == Some(
                SourceView::Text { path: histfile, format: Format::Detect },
            )
            &&& unset && env.runs("fish"@) ==> chosen(env, found) == if found.fish
                && env.fish_file() is Some {
                Some(SourceView::Text { path: env.fish_file()->0, format: Format::Fish })
            } else {
                None
            }
            &&& unset && env.runs("zsh"@) ==> chosen(env, found) is None
            &&& unset && !env.runs("fish"@) && !env.runs("zsh"@) ==> chosen(env, found)
                == if found.bash && env.bash_file() is Some {
                Some(SourceView::Text { path: env.bash_file()->0, format: Format::Bash })
            } else {
                None
            }
        },
{
    if env.runs("zsh"@) && env.runs("fish"@) {
        reveal_strlit("fish");
        reveal_strlit("zsh");
        vstd::utf8::encode_utf8_decode_utf8("fish"@);
        vstd::utf8::encode_utf8_decode_utf8("zsh"@);
        assert("fish"@.len() != "zsh"@.len());
    }
}

/// The format is told by the first line that is not blank, past the blanks around it: a fish
/// command line, a zsh header, or anything else, which is bash. So is a file without such a line.
pub proof fn the_format_is_told_by_the_first_words(text: Seq<char>, i: int)
    ensures
        (forall|k: int| 0 <= k < lines(text).len() ==> blank(#[trigger] lines(text)[k]))
            ==> detected(text) == Format::Bash,
        0 <= i < lines(text).len() && !blank(lines(text)[i]) && (forall|k: int|
            0 <= k < i ==> blank(#[trigger] lines(text)[k])) ==> {
            let words = trimmed(lines(text)[i]);
            &&& has_prefix(words, "- cmd: "@) ==> detected(text) == Format::Fish
            &&& !has_prefix(words, "- cmd: "@) && header(words) is Some ==> detected(text)
                == Format::Zsh
            &&& !has_prefix(words, "- cmd: "@) && header(words) is None ==> detected(text)
                == Format::Bash
        },
{
    let all = lines(text);
    let filled = |k: int| !blank(all[k]);
    if forall|k: int| 0 <= k < all.len() ==> blank(#[trigger] all[k]) {
        lemma_first_from(0, all.len() as int, filled, all.len() as int);
    }
    if 0 <= i < all.len() && !blank(all[i]) && (forall|k: int|
        0 <= k < i ==> blank(#[trigger] all[k])) {
        lemma_first_from(0, all.len() as int, filled, i);
    }
}

/// A file is read in the format that was asked for, or in the one it shows where none was, and what
/// carries no time of its own gets the time of the import.
pub proof fn a_file_is_read_in_its_format(text: Seq<char>, now: i64)
    ensures
        file_history(text, Format::Fish, now) == fish_history(text, now),
        file_history(text, Format::Zsh, now) == zsh_history(text),
        file_history(text, Format::Bash, now) == Ok::<Seq<Sighting>, Seq<char>>(
            imported(bash_entries(lines(text), now)),
        ),
        detected(text) == Format::Fish ==> file_history(text, Format::Detect, now) == fish_history(
            text,
            now,
        ),
        detected(text) == Format::Zsh ==> file_history(text, Format::Detect, now) == zsh_history(
            text,
        ),
        detected(text) == Format::Bash ==> file_history(text, Format::Detect, now) == Ok::<
            Seq<Sighting>,
            Seq<char>,
        >(imported(bash_entries(lines(text), now))),
        forall|format: Format|
            text_history(text, format, now) == #[trigger] file_history(text, format, now) || format
                == Format::Detect,
{
}

/// Importing records every row once, the oldest first, and rows of the same second in the order
/// they were read.
pub proof fn an_import_records_the_rows_oldest_first(table: Seq<Row>, rows: Seq<Sighting>)
    ensures
        ({
            let order = time_order(rows);
            &&& order.len() == rows.len()
            &&& order.no_duplicates()
            &&& by_time(rows).len() == rows.len()
            &&& forall|k: int|
                0 <= k < order.len() ==> 0 <= #[trigger] order[k] < rows.len() && by_time(rows)[k]
                    == rows[order[k]]
            &&& forall|a: int, b: int|
                0 <= a < b < order.len() ==> {
                    let i = #[trigger] order[a];
                    let j = #[trigger] order[b];
                    rows[i].ts < rows[j].ts || (rows[i].ts == rows[j].ts && i < j)
                }
        }),
        merged(table, rows) == replayed(table, recorded(by_time(rows))),
{
    rows_are_applied_oldest_first(rows);
    let order = time_order(rows);
    assert forall|a: int, b: int| 0 <= a < b < order.len() implies {
        let i = #[trigger] order[a];
        let j = #[trigger] order[b];
        rows[i].ts < rows[j].ts || (rows[i].ts == rows[j].ts && i < j)
    } by {
        assert(applied_before(rows, order[a], order[b]));
    }
}

/// Import failures name what failed and where.
pub proof fn import_failures_name_what_failed(path: String, message: String, error: DbError)
    ensures
        ImportError::NoSource.text() == "nothing to import: no atuin db and no history file"@,
        (ImportError::Read { path, message }).text() == "cannot read "@ + path@ + ": "@ + message@,
        (ImportError::Format { path, message }).text() == "cannot parse "@ + path@ + ": "@
            + message@,
        (ImportError::Atuin { path, message }).text() == "cannot read the atuin db at "@ + path@
            + ": "@ + message@,
        ImportError::Db(error).text() == error.text(),
{
}

} // verus!
