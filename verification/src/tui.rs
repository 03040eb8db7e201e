//! What the picker does with keys and what it draws. The terminal itself is elsewhere: events come
//! in as plain values, and a frame goes out as a list of drawing steps.

use vstd::prelude::*;

use crate::db::{HistoryRow, HistoryRowView};
use crate::search::{shortened, without_word, Search, SearchState};
use crate::text::{chars_of, decimal, decimal_string, texts};
use crate::timefmt::{age, an_age_is_short_and_printable, relative_time};
use crate::unicode::{display_width, grapheme_clusters, graphemes, printable, width};

verus! {

/// What the user asked for. [`crate::app::emit_search`] turns this into the exit status the shell
/// widget reads.
#[derive(Debug)]
pub enum Outcome {
    /// Put the command on the prompt and execute it.
    Run(String),
    /// Put the command on the prompt and leave the cursor there.
    Insert(String),
    /// Leave the prompt as it was.
    Cancelled,
}

/// What an [`Outcome`] says.
#[verifier::ext_equal]
pub enum OutcomeView {
    Run(Seq<char>),
    Insert(Seq<char>),
    Cancelled,
}

impl View for Outcome {
    type V = OutcomeView;

    open spec fn view(&self) -> OutcomeView {
        match self {
            Outcome::Run(cmd) => OutcomeView::Run(cmd@),
            Outcome::Insert(cmd) => OutcomeView::Insert(cmd@),
            Outcome::Cancelled => OutcomeView::Cancelled,
        }
    }
}

/// What one event does to the loop. Key handling returns this instead of acting on the terminal.
#[derive(Debug)]
pub enum EventAction {
    Continue,
    Resize(u16, u16),
    Finish(Outcome),
}

/// What an [`EventAction`] says.
#[verifier::ext_equal]
pub enum EventActionView {
    Continue,
    Resize(u16, u16),
    Finish(OutcomeView),
}

impl View for EventAction {
    type V = EventActionView;

    open spec fn view(&self) -> EventActionView {
        match self {
            EventAction::Continue => EventActionView::Continue,
            EventAction::Resize(width, height) => EventActionView::Resize(*width, *height),
            EventAction::Finish(outcome) => EventActionView::Finish(outcome@),
        }
    }
}

// ---------------------------------------------------------------------------------------------
// Keys
// ---------------------------------------------------------------------------------------------

/// The keys with a meaning here, and one name for all others.
#[derive(Clone, Copy, Debug, PartialEq, Eq, Structural)]
pub enum KeyCode {
    Backspace,
    Enter,
    Left,
    Right,
    Up,
    Down,
    Tab,
    Esc,
    Char(char),
    Other,
}

/// The modifiers with a meaning here.
#[derive(Clone, Copy, Debug, PartialEq, Eq, Structural)]
pub struct KeyModifiers {
    pub control: bool,
    pub alt: bool,
}

/// Kitty protocol terminals also deliver Release and Repeat.
#[derive(Clone, Copy, Debug, PartialEq, Eq, Structural)]
pub enum KeyEventKind {
    Press,
    Repeat,
    Release,
}

#[derive(Clone, Copy, Debug, PartialEq, Eq, Structural)]
pub struct KeyEvent {
    pub code: KeyCode,
    pub modifiers: KeyModifiers,
    pub kind: KeyEventKind,
}

/// What a terminal reports.
#[derive(Clone, Copy, Debug, PartialEq, Eq, Structural)]
pub enum Event {
    FocusGained,
    FocusLost,
    Key(KeyEvent),
    Mouse,
    Paste,
    Resize(u16, u16),
}

/// The character an event types, if it types one. Anything with ctrl or alt held is a binding the
/// picker may or may not have, not text to search for.
pub open spec fn typed(event: Event) -> Option<char> {
    match event {
        Event::Key(k) => match k.code {
            KeyCode::Char(c) => if k.kind == KeyEventKind::Press && !k.modifiers.control
                && !k.modifiers.alt {
                Some(c)
            } else {
                None
            },
            _ => None,
        },
        _ => None,
    }
}

/// The outcome of accepting the selection. With nothing selected it cancels rather than doing
/// nothing, so a query that matches nothing still leaves on one keypress.
pub open spec fn accepted(search: Search, run: bool) -> OutcomeView {
    match search.selection() {
        Some(cmd) => if run {
            OutcomeView::Run(cmd)
        } else {
            OutcomeView::Insert(cmd)
        },
        None => OutcomeView::Cancelled,
    }
}

/// The whole key map: what a pressed key does to the picker, and whether it ends it.
pub open spec fn pressed(search: Search, k: KeyEvent, visible: int) -> (Search, EventActionView) {
    let ctrl = k.modifiers.control;
    let go_on = EventActionView::Continue;
    match k.code {
        KeyCode::Esc => (search, EventActionView::Finish(OutcomeView::Cancelled)),
        KeyCode::Enter => (search, EventActionView::Finish(accepted(search, true))),
        KeyCode::Right | KeyCode::Tab => (search, EventActionView::Finish(accepted(search, false))),
        KeyCode::Up => (search.up(visible), go_on),
        KeyCode::Down => (search.down(visible), go_on),
        KeyCode::Backspace => (
            search.with_query(
                shortened(search.query, crate::unicode::last_cluster(search.query)),
            ),
            go_on,
        ),
        KeyCode::Char(c) => if ctrl {
            if c == 'c' {
                (search, EventActionView::Finish(OutcomeView::Cancelled))
            } else if c == 'r' {
                (search.toggled(), go_on)
            } else if c == 'p' {
                (search.up(visible), go_on)
            } else if c == 'n' {
                (search.down(visible), go_on)
            } else if c == 'u' {
                (search.with_query(Seq::empty()), go_on)
            } else if c == 'w' {
                (search.with_query(without_word(search.query)), go_on)
            } else {
                (search, go_on)
            }
        } else if k.modifiers.alt {
            (search, go_on)
        } else {
            (search.with_query(search.query.push(c)), go_on)
        },
        _ => (search, go_on),
    }
}

/// What an event does to the picker, and whether it ends it.
pub open spec fn handled(search: Search, event: Event, visible: int) -> (Search, EventActionView) {
    match event {
        Event::Key(k) => if k.kind == KeyEventKind::Press {
            pressed(search, k, visible)
        } else {
            (search, EventActionView::Continue)
        },
        Event::Resize(w, h) => (search, EventActionView::Resize(w, h)),
        _ => (search, EventActionView::Continue),
    }
}

fn accept(state: &SearchState, run: bool) -> (action: EventAction)
    requires
        state.well_formed(),
    ensures
        action@ == EventActionView::Finish(accepted(state@, run)),
{
    match state.selection() {
        Some(cmd) => {
            let cmd = cmd.to_owned();
            EventAction::Finish(
                if run {
                    Outcome::Run(cmd)
                } else {
                    Outcome::Insert(cmd)
                },
            )
        },
        None => EventAction::Finish(Outcome::Cancelled),
    }
}

/// Apply one event to the picker. The whole key map lives here, and it is the only place a binding
/// is defined.
pub fn handle_event(state: &mut SearchState, event: Event, visible: usize) -> (action: EventAction)
    requires
        old(state).well_formed(),
        typed(event) matches Some(c) ==> old(state)@.admits(old(state)@.query.push(c)),
    ensures
        final(state).well_formed(),
        (final(state)@, action@) == handled(old(state)@, event, visible as int),
{
    match event {
        Event::Key(k) => {
            if k.kind != KeyEventKind::Press {
                return EventAction::Continue;
            }
            let ctrl = k.modifiers.control;
            match k.code {
                KeyCode::Esc => EventAction::Finish(Outcome::Cancelled),
                KeyCode::Enter => accept(state, true),
                KeyCode::Right | KeyCode::Tab => accept(state, false),
                KeyCode::Up => {
                    state.move_up(visible);
                    EventAction::Continue
                },
                KeyCode::Down => {
                    state.move_down(visible);
                    EventAction::Continue
                },
                KeyCode::Backspace => {
                    state.backspace();
                    EventAction::Continue
                },
                KeyCode::Char(c) => {
                    if ctrl {
                        if c == 'c' {
                            return EventAction::Finish(Outcome::Cancelled);
                        } else if c == 'r' {
                            state.toggle_dir_only();
                        } else if c == 'p' {
                            state.move_up(visible);
                        } else if c == 'n' {
                            state.move_down(visible);
                        } else if c == 'u' {
                            state.clear_line();
                        } else if c == 'w' {
                            state.delete_word();
                        }
                    } else if !k.modifiers.alt {
                        state.push_char(c);
                    }
                    EventAction::Continue
                },
                _ => EventAction::Continue,
            }
        },
        Event::Resize(w, h) => EventAction::Resize(w, h),
        _ => EventAction::Continue,
    }
}

/// The character an event types, if it types one.
pub fn typed_char(event: Event) -> (c: Option<char>)
    ensures
        c == typed(event),
{
    match event {
        Event::Key(k) => match k.code {
            KeyCode::Char(c) => if k.kind == KeyEventKind::Press && !k.modifiers.control
                && !k.modifiers.alt {
                Some(c)
            } else {
                None
            },
            _ => None,
        },
        _ => None,
    }
}

/// Whether an event can be handled: a character that would make the query longer than the matcher
/// can score cannot.
pub fn can_handle(state: &SearchState, event: Event) -> (yes: bool)
    ensures
        yes == (typed(event) matches Some(c) ==> state@.admits(state@.query.push(c))),
{
    match typed_char(event) {
        Some(c) => state.accepts(c),
        None => true,
    }
}

/// A typed character goes to the end of the query, and the picker goes on.
pub proof fn typing_appends_to_the_query(search: Search, event: Event, visible: int, c: char)
    requires
        typed(event) == Some(c),
    ensures
        handled(search, event, visible) == (
            search.with_query(search.query.push(c)),
            EventActionView::Continue,
        ),
{
}

/// Nothing but a key press changes the picker. Terminals speaking the kitty protocol send a
/// Release for every Press, and handling both would type each character twice.
pub proof fn only_a_press_changes_the_picker(search: Search, event: Event, visible: int)
    requires
        !(event matches Event::Key(k) && k.kind == KeyEventKind::Press),
    ensures
        handled(search, event, visible).0 == search,
        !(handled(search, event, visible).1 is Finish),
{
}

/// A key that ends the picker leaves it as it was, and the command it hands over is the selected
/// one.
pub proof fn finishing_hands_over_the_selection(search: Search, event: Event, visible: int)
    requires
        handled(search, event, visible).1 is Finish,
    ensures
        handled(search, event, visible).0 == search,
        match handled(search, event, visible).1->Finish_0 {
            OutcomeView::Run(cmd) => search.selection() == Some(cmd),
            OutcomeView::Insert(cmd) => search.selection() == Some(cmd),
            OutcomeView::Cancelled => true,
        },
{
}

/// With nothing to select, the keys that accept the selection cancel, so the picker never traps the
/// user.
pub proof fn accepting_nothing_cancels(search: Search, k: KeyEvent, visible: int)
    requires
        search.matches().len() == 0,
        k.code == KeyCode::Enter || k.code == KeyCode::Right || k.code == KeyCode::Tab,
    ensures
        pressed(search, k, visible).1 == EventActionView::Finish(OutcomeView::Cancelled),
{
}

/// The arrows and their ctrl aliases agree.
pub proof fn ctrl_p_and_ctrl_n_are_the_arrows(search: Search, k: KeyEvent, visible: int)
    requires
        k.modifiers.control,
    ensures
        k.code == KeyCode::Char('p') ==> pressed(search, k, visible) == pressed(
            search,
            KeyEvent { code: KeyCode::Up, ..k },
            visible,
        ),
        k.code == KeyCode::Char('n') ==> pressed(search, k, visible) == pressed(
            search,
            KeyEvent { code: KeyCode::Down, ..k },
            visible,
        ),
{
}

// ---------------------------------------------------------------------------------------------
// Layout
// ---------------------------------------------------------------------------------------------

/// Rows left for matches once the footer and the input line take theirs.
pub open spec fn match_rows(height: u16) -> int {
    if height >= 2 {
        height - 2
    } else {
        0
    }
}

/// Rows left for matches once the footer and the input line take theirs.
pub fn window(height: u16) -> (rows: usize)
    ensures
        rows == match_rows(height),
{
    if height >= 2 {
        (height - 2) as usize
    } else {
        0
    }
}

/// A terminal's size. Some ptys report no size at all; assume a classic terminal instead of drawing
/// nothing.
pub fn fallback(size: (u16, u16)) -> (known: (u16, u16))
    ensures
        known.0 == if size.0 == 0 {
            80u16
        } else {
            size.0
        },
        known.1 == if size.1 == 0 {
            24u16
        } else {
            size.1
        },
{
    (
        if size.0 == 0 {
            80
        } else {
            size.0
        },
        if size.1 == 0 {
            24
        } else {
            size.1
        },
    )
}

/// What a character of a command shows as. Multiline commands render on one row; tabs would move
/// the cursor on their own, so they become spaces too.
pub open spec fn shown_as(c: char) -> Seq<char> {
    if c == '\n' {
        seq![' ', ' ']
    } else if c == '\r' || c == '\t' {
        seq![' ']
    } else {
        seq![c]
    }
}

/// A command on one row.
pub open spec fn flattened(cmd: Seq<char>) -> Seq<char>
    decreases cmd.len(),
{
    if cmd.len() == 0 {
        Seq::empty()
    } else {
        flattened(cmd.drop_last()) + shown_as(cmd.last())
    }
}

/// A command on one row.
pub fn flatten(cmd: &str) -> (out: String)
    ensures
        out@ == flattened(cmd@),
{
    let chars = chars_of(cmd);
    let mut out = String::new();
    let mut i: usize = 0;
    while i < chars.len()
        invariant
            chars@ == cmd@,
            i <= chars@.len(),
            out@ == flattened(cmd@.take(i as int)),
        decreases chars@.len() - i,
    {
        let c = chars[i];
        proof {
            assert(cmd@.take(i + 1).drop_last() =~= cmd@.take(i as int));
            assert(cmd@.take(i + 1).last() == c);
        }
        if c == '\n' {
            out.push(' ');
            out.push(' ');
        } else if c == '\r' || c == '\t' {
            out.push(' ');
        } else {
            out.push(c);
        }
        assert(out@ =~= flattened(cmd@.take(i + 1)));
        i += 1;
    }
    assert(cmd@.take(i as int) =~= cmd@);
    out
}

/// A flattened command moves the cursor nowhere on its own.
pub proof fn a_flattened_command_stays_on_its_row(cmd: Seq<char>)
    ensures
        forall|i: int|
            0 <= i < flattened(cmd).len() ==> #[trigger] flattened(cmd)[i] != '\n' && flattened(
                cmd,
            )[i] != '\r' && flattened(cmd)[i] != '\t',
    decreases cmd.len(),
{
    if cmd.len() > 0 {
        a_flattened_command_stays_on_its_row(cmd.drop_last());
        let before = flattened(cmd.drop_last());
        let last = shown_as(cmd.last());
        assert forall|i: int| 0 <= i < flattened(cmd).len() implies #[trigger] flattened(cmd)[i]
            != '\n' && flattened(cmd)[i] != '\r' && flattened(cmd)[i] != '\t' by {
            if i < before.len() {
                assert(flattened(cmd)[i] == before[i]);
            } else {
                assert(flattened(cmd)[i] == last[i - before.len()]);
            }
        }
    }
}

/// How many pieces from the start fit in `columns`, given what each takes.
pub open spec fn fitting(widths: Seq<usize>, columns: int) -> int
    decreases widths.len(),
{
    if widths.len() == 0 || widths[0] > columns {
        0
    } else {
        1 + fitting(widths.drop_first(), columns - widths[0])
    }
}

/// The columns that pieces take together.
pub open spec fn total(widths: Seq<usize>) -> int
    decreases widths.len(),
{
    if widths.len() == 0 {
        0
    } else {
        widths[0] + total(widths.drop_first())
    }
}

/// The pieces that fit do fit, and one more would not.
pub proof fn as_much_as_fits_is_kept(widths: Seq<usize>, columns: int)
    requires
        columns >= 0,
    ensures
        0 <= fitting(widths, columns) <= widths.len(),
        total(widths.take(fitting(widths, columns))) <= columns,
        fitting(widths, columns) < widths.len() ==> total(
            widths.take(fitting(widths, columns) + 1),
        ) > columns,
    decreases widths.len(),
{
    if widths.len() > 0 && widths[0] <= columns {
        let rest = widths.drop_first();
        let n = fitting(rest, columns - widths[0]);
        as_much_as_fits_is_kept(rest, columns - widths[0]);
        assert(widths.take(n + 1).drop_first() =~= rest.take(n));
        if n < rest.len() {
            assert(widths.take(n + 2).drop_first() =~= rest.take(n + 1));
        }
    } else if widths.len() > 0 {
        assert(widths.take(0) =~= Seq::empty());
        assert(widths.take(1).drop_first() =~= Seq::empty());
        assert(total(widths.take(1).drop_first()) == 0);
    } else {
        assert(widths.take(0) =~= Seq::empty());
    }
}

/// How many pieces from the start fit in `columns`, given what each takes.
pub fn fit(widths: &Vec<usize>, columns: usize) -> (count: usize)
    ensures
        count == fitting(widths@, columns as int),
        count <= widths@.len(),
{
    let mut count: usize = 0;
    let mut left: usize = columns;
    assert(widths@.skip(0) =~= widths@);
    while count < widths.len() && widths[count] <= left
        invariant
            count <= widths@.len(),
            count + fitting(widths@.skip(count as int), left as int) == fitting(
                widths@,
                columns as int,
            ),
        decreases widths@.len() - count,
    {
        assert(widths@.skip(count as int).drop_first() =~= widths@.skip(count + 1));
        left -= widths[count];
        count += 1;
    }
    count
}

/// The columns that each visible character of a text takes.
pub open spec fn cluster_widths(text: Seq<char>) -> Seq<usize> {
    grapheme_clusters(text).map_values(|cluster: Seq<char>| display_width(cluster))
}

/// As many visible characters from the start of a text as fit in `columns`.
pub open spec fn truncated(text: Seq<char>, columns: int) -> Seq<char> {
    grapheme_clusters(text).take(fitting(cluster_widths(text), columns)).flatten()
}

proof fn lemma_flatten_take(parts: Seq<Seq<char>>, n: int)
    requires
        0 <= n <= parts.len(),
    ensures
        parts.take(n).flatten().len() <= parts.flatten().len(),
        parts.take(n).flatten() == parts.flatten().take(parts.take(n).flatten().len() as int),
{
    vstd::seq_lib::lemma_flatten_concat(parts.take(n), parts.skip(n));
    assert(parts.take(n) + parts.skip(n) =~= parts);
    let head = parts.take(n).flatten();
    assert(parts.flatten() == head + parts.skip(n).flatten());
    assert(parts.flatten().take(head.len() as int) =~= head);
}

proof fn lemma_single_chars(text: Seq<char>, n: int)
    requires
        0 <= n <= text.len(),
    ensures
        text.map_values(|c: char| seq![c]).take(n).flatten() == text.take(n),
    decreases n,
{
    let parts = text.map_values(|c: char| seq![c]);
    if n > 0 {
        lemma_single_chars(text, n - 1);
        parts.take(n - 1).lemma_flatten_push(parts[n - 1]);
        assert(parts.take(n - 1).push(parts[n - 1]) =~= parts.take(n));
        assert(text.take(n) =~= text.take(n - 1) + seq![text[n - 1]]);
    } else {
        assert(parts.take(0).flatten() =~= text.take(0));
    }
}

proof fn lemma_fitting_ones(widths: Seq<usize>, columns: int)
    requires
        columns >= 0,
        forall|i: int| 0 <= i < widths.len() ==> #[trigger] widths[i] == 1,
    ensures
        fitting(widths, columns) == if columns < widths.len() {
            columns
        } else {
            widths.len() as int
        },
    decreases widths.len(),
{
    if widths.len() > 0 && columns > 0 {
        let rest = widths.drop_first();
        assert forall|i: int| 0 <= i < rest.len() implies #[trigger] rest[i] == 1 by {
            assert(rest[i] == widths[i + 1]);
        }
        lemma_fitting_ones(rest, columns - 1);
    }
}

/// The longest prefix that fits in `columns` columns. Counts display width, not bytes or chars, and
/// never splits a visible character: a cut inside one would print a stray combining mark or half an
/// emoji. Printable ASCII is cut after that many characters.
pub fn truncate(text: &str, columns: usize) -> (out: String)
    ensures
        out@ == truncated(text@, columns as int),
        out@.len() <= text@.len(),
        out@ == text@.take(out@.len() as int),
        printable(text@) ==> out@.len() == if columns < text@.len() {
            columns as nat
        } else {
            text@.len()
        },
{
    let clusters = graphemes(text);
    let ghost parts = texts(clusters@);
    let mut widths: Vec<usize> = Vec::new();
    let mut i: usize = 0;
    while i < clusters.len()
        invariant
            i <= clusters@.len(),
            parts == texts(clusters@),
            widths@.len() == i,
            forall|k: int| 0 <= k < i ==> #[trigger] widths@[k] == display_width(parts[k]),
            forall|k: int| 0 <= k < i && printable(parts[k]) ==> #[trigger] widths@[k]
                == parts[k].len(),
        decreases clusters@.len() - i,
    {
        assert(parts[i as int] == clusters@[i as int]@);
        widths.push(width(clusters[i].as_str()));
        i += 1;
    }
    let count: usize = fit(&widths, columns);
    let mut out = String::new();
    let mut k: usize = 0;
    proof {
        assert(widths@ =~= cluster_widths(text@));
        assert(parts.take(0).flatten() =~= Seq::empty());
    }
    while k < count
        invariant
            k <= count <= clusters@.len(),
            parts == texts(clusters@),
            out@ == parts.take(k as int).flatten(),
        decreases count - k,
    {
        out.append(clusters[k].as_str());
        proof {
            parts.take(k as int).lemma_flatten_push(parts[k as int]);
            assert(parts.take(k as int).push(parts[k as int]) =~= parts.take(k + 1));
        }
        k += 1;
    }
    proof {
        lemma_flatten_take(parts, count as int);
        if printable(text@) {
            assert forall|j: int| 0 <= j < widths@.len() implies #[trigger] widths@[j] == 1 by {
                assert(parts[j] == seq![text@[j]]);
                assert(printable(parts[j]));
            }
            lemma_fitting_ones(widths@, columns as int);
            lemma_single_chars(text@, count as int);
        }
    }
    out
}

// ---------------------------------------------------------------------------------------------
// Drawing
// ---------------------------------------------------------------------------------------------

/// One step of drawing a frame.
#[derive(Debug)]
pub enum DrawOp {
    HideCursor,
    ShowCursor,
    /// Column, then row, both counted from the top left corner.
    MoveTo(u16, u16),
    ClearAll,
    Print(String),
    Bold,
    Dim,
    ResetAttributes,
    Cyan,
    ResetColor,
}

/// What a [`DrawOp`] says.
#[verifier::ext_equal]
pub enum Op {
    HideCursor,
    ShowCursor,
    MoveTo(int, int),
    ClearAll,
    Print(Seq<char>),
    Bold,
    Dim,
    ResetAttributes,
    Cyan,
    ResetColor,
}

impl View for DrawOp {
    type V = Op;

    open spec fn view(&self) -> Op {
        match self {
            DrawOp::HideCursor => Op::HideCursor,
            DrawOp::ShowCursor => Op::ShowCursor,
            DrawOp::MoveTo(column, row) => Op::MoveTo(*column as int, *row as int),
            DrawOp::ClearAll => Op::ClearAll,
            DrawOp::Print(text) => Op::Print(text@),
            DrawOp::Bold => Op::Bold,
            DrawOp::Dim => Op::Dim,
            DrawOp::ResetAttributes => Op::ResetAttributes,
            DrawOp::Cyan => Op::Cyan,
            DrawOp::ResetColor => Op::ResetColor,
        }
    }
}

/// What the steps of a frame say.
pub open spec fn ops(frame: Seq<DrawOp>) -> Seq<Op> {
    frame.map_values(|op: DrawOp| op@)
}

fn step(frame: &mut Vec<DrawOp>, op: DrawOp)
    ensures
        ops(final(frame)@) == ops(old(frame)@).push(op@),
{
    let ghost before = frame@;
    frame.push(op);
    assert(ops(frame@) =~= ops(before).push(op@));
}

/// The columns left for a command once the marker, a gap, and the timestamp take theirs, so
/// nothing collides.
pub open spec fn command_columns(cols: int, time_cols: int) -> int {
    if cols >= 3 + time_cols {
        cols - 3 - time_cols
    } else {
        0
    }
}

/// A match on its row: the command at the left, marked when selected, and its age at the right if
/// there is room for it.
pub open spec fn match_line(
    selected: bool,
    cmd: Seq<char>,
    time: Seq<char>,
    time_cols: int,
    cols: int,
    line: int,
) -> Seq<Op> {
    let command = if selected {
        seq![
            Op::Bold,
            Op::Cyan,
            Op::Print("> "@),
            Op::Print(cmd),
            Op::ResetColor,
            Op::ResetAttributes,
        ]
    } else {
        seq![Op::Print("  "@), Op::Print(cmd)]
    };
    let age = if time_cols < cols {
        seq![Op::MoveTo(cols - time_cols, line), Op::Dim, Op::Print(time), Op::ResetAttributes]
    } else {
        Seq::empty()
    };
    seq![Op::MoveTo(0, line)] + command + age
}

/// A row of the picker on a line of the screen.
pub open spec fn row_line(row: (bool, HistoryRowView), line: int, cols: int, now: int) -> Seq<Op> {
    let time = age(now, row.1.ts as int);
    let time_cols = display_width(time) as int;
    match_line(
        row.0,
        truncated(flattened(row.1.cmd), command_columns(cols, time_cols)),
        time,
        time_cols,
        cols,
        line,
    )
}

/// The rows of a window, the first nearest the footer and the others growing upward from it.
pub open spec fn row_lines(
    rows: Seq<(bool, HistoryRowView)>,
    cols: int,
    height: int,
    now: int,
) -> Seq<Op>
    decreases rows.len(),
{
    if rows.len() == 0 {
        Seq::empty()
    } else {
        row_lines(rows.drop_last(), cols, height, now) + row_line(
            rows.last(),
            height - 3 - (rows.len() - 1),
            cols,
            now,
        )
    }
}

/// What the footer says.
pub open spec fn footer_text(matches: nat) -> Seq<char> {
    decimal(matches)
        + " matches  up/down move  enter run  right insert  ctrl-r dir  esc cancel"@
}

/// The footer, on the row above the input.
pub open spec fn footer(matches: nat, cols: int, height: int) -> Seq<Op> {
    if height >= 2 {
        seq![
            Op::MoveTo(0, height - 2),
            Op::Dim,
            Op::Print(truncated(footer_text(matches), cols)),
            Op::ResetAttributes,
        ]
    } else {
        Seq::empty()
    }
}

/// What stands before the query. It is the scope indicator: `dir> ` while narrowed, `> ` while
/// searching everything.
pub open spec fn prompt_text(dir_only: bool) -> Seq<char> {
    if dir_only {
        "dir> "@
    } else {
        "> "@
    }
}

/// The prompt as it is drawn.
pub open spec fn prompt(dir_only: bool) -> Seq<Op> {
    if dir_only {
        seq![
            Op::Bold,
            Op::Cyan,
            Op::Print("dir"@),
            Op::ResetColor,
            Op::ResetAttributes,
            Op::Print("> "@),
        ]
    } else {
        seq![Op::Print("> "@)]
    }
}

/// Where the cursor goes. Past the last column it would wrap to the next line, so a long query
/// parks it on the right edge instead.
pub open spec fn cursor_column(prompt_cols: int, query_cols: int, cols: int) -> int {
    let edge = if cols > 0 {
        cols - 1
    } else {
        0
    };
    if prompt_cols + query_cols < edge {
        prompt_cols + query_cols
    } else {
        edge
    }
}

/// The input line, with the cursor after what has been typed.
pub open spec fn input_line(search: Search, cols: int, height: int) -> Seq<Op> {
    let line = if height > 0 {
        height - 1
    } else {
        0
    };
    let cursor = cursor_column(
        display_width(prompt_text(search.dir_only)) as int,
        display_width(search.query) as int,
        cols,
    );
    seq![Op::MoveTo(0, line)] + prompt(search.dir_only) + seq![
        Op::Print(search.query),
        Op::MoveTo(cursor, line),
        Op::ShowCursor,
    ]
}

/// A whole frame: the input sits on the bottom row, the footer above it, and matches grow upward
/// from the footer, newest next to the input.
pub open spec fn frame(search: Search, cols: u16, height: u16, now: int) -> Seq<Op> {
    seq![Op::HideCursor, Op::MoveTo(0, 0), Op::ClearAll] + row_lines(
        search.window(match_rows(height)),
        cols as int,
        height as int,
        now,
    ) + footer(search.matches().len(), cols as int, height as int) + input_line(
        search,
        cols as int,
        height as int,
    )
}

/// Where the cursor goes, given what the prompt and the query measure.
pub fn cursor_at(prompt_cols: usize, query_cols: usize, cols: u16) -> (column: u16)
    ensures
        column == cursor_column(prompt_cols as int, query_cols as int, cols as int),
{
    let edge: usize = if cols > 0 {
        cols as usize - 1
    } else {
        0
    };
    if prompt_cols < edge && query_cols < edge - prompt_cols {
        (prompt_cols + query_cols) as u16
    } else {
        edge as u16
    }
}

/// The cursor never leaves the screen.
pub proof fn the_cursor_stays_on_the_screen(prompt_cols: int, query_cols: int, cols: int)
    requires
        prompt_cols >= 0,
        query_cols >= 0,
        cols > 0,
    ensures
        0 <= cursor_column(prompt_cols, query_cols, cols) < cols,
{
}

/// Draw a match on its row, given the command as it fits and what its age measures.
pub fn draw_match(
    out: &mut Vec<DrawOp>,
    selected: bool,
    cmd: String,
    time: String,
    time_cols: usize,
    cols: u16,
    line: u16,
)
    ensures
        ops(final(out)@) == ops(old(out)@) + match_line(
            selected,
            cmd@,
            time@,
            time_cols as int,
            cols as int,
            line as int,
        ),
{
    let ghost before = ops(out@);
    step(out, DrawOp::MoveTo(0, line));
    if selected {
        step(out, DrawOp::Bold);
        step(out, DrawOp::Cyan);
        step(out, DrawOp::Print("> ".to_owned()));
        step(out, DrawOp::Print(cmd));
        step(out, DrawOp::ResetColor);
        step(out, DrawOp::ResetAttributes);
    } else {
        step(out, DrawOp::Print("  ".to_owned()));
        step(out, DrawOp::Print(cmd));
    }
    if time_cols < cols as usize {
        step(out, DrawOp::MoveTo((cols as usize - time_cols) as u16, line));
        step(out, DrawOp::Dim);
        step(out, DrawOp::Print(time));
        step(out, DrawOp::ResetAttributes);
    }
    assert(ops(out@) =~= before + match_line(
        selected,
        cmd@,
        time@,
        time_cols as int,
        cols as int,
        line as int,
    ));
}

/// Whether a step stays on a screen of the given size. On one without columns only the left edge
/// is left.
pub open spec fn on_screen(op: Op, cols: int, height: int) -> bool {
    match op {
        Op::MoveTo(column, row) => {
            (column == 0 || 0 < column < cols) && 0 <= row < height
        },
        _ => true,
    }
}

/// Whether the age of every row takes up columns, as text that can be printed does.
pub open spec fn ages_show(rows: Seq<(bool, HistoryRowView)>, now: int) -> bool {
    forall|k: int|
        0 <= k < rows.len() ==> display_width(age(now, (#[trigger] rows[k]).1.ts as int)) > 0
}

/// Draw a row of the picker on a line of the screen.
fn draw_row(
    out: &mut Vec<DrawOp>,
    selected: bool,
    row: &HistoryRow,
    line: u16,
    cols: u16,
    now: i64,
)
    ensures
        ops(final(out)@) == ops(old(out)@) + row_line(
            (selected, row@),
            line as int,
            cols as int,
            now as int,
        ),
        display_width(age(now as int, row@.ts as int)) > 0,
{
    let time = relative_time(now, row.ts);
    let time_cols: usize = width(time.as_str());
    proof {
        an_age_is_short_and_printable(now as int, row.ts as int);
    }
    let columns: usize = if cols as usize >= 3 + time_cols {
        cols as usize - 3 - time_cols
    } else {
        0
    };
    let whole = flatten(row.cmd.as_str());
    let shown = truncate(whole.as_str(), columns);
    draw_match(out, selected, shown, time, time_cols, cols, line);
}

fn draw_footer(out: &mut Vec<DrawOp>, matches: usize, cols: u16, height: u16)
    ensures
        ops(final(out)@) == ops(old(out)@) + footer(matches as nat, cols as int, height as int),
{
    let ghost before = ops(out@);
    if height >= 2 {
        let mut text = decimal_string(matches as u64);
        text.append(
            " matches  up/down move  enter run  right insert  ctrl-r dir  esc cancel",
        );
        let shown = truncate(text.as_str(), cols as usize);
        step(out, DrawOp::MoveTo(0, height - 2));
        step(out, DrawOp::Dim);
        step(out, DrawOp::Print(shown));
        step(out, DrawOp::ResetAttributes);
    }
    assert(ops(out@) =~= before + footer(matches as nat, cols as int, height as int));
}

fn draw_input(out: &mut Vec<DrawOp>, state: &SearchState, cols: u16, height: u16)
    ensures
        ops(final(out)@) == ops(old(out)@) + input_line(state@, cols as int, height as int),
{
    let ghost before = ops(out@);
    let line: u16 = if height > 0 {
        height - 1
    } else {
        0
    };
    step(out, DrawOp::MoveTo(0, line));
    let prompt_cols: usize = if state.dir_only() {
        step(out, DrawOp::Bold);
        step(out, DrawOp::Cyan);
        step(out, DrawOp::Print("dir".to_owned()));
        step(out, DrawOp::ResetColor);
        step(out, DrawOp::ResetAttributes);
        step(out, DrawOp::Print("> ".to_owned()));
        width("dir> ")
    } else {
        step(out, DrawOp::Print("> ".to_owned()));
        width("> ")
    };
    let query = state.query();
    step(out, DrawOp::Print(query.to_owned()));
    let cursor: u16 = cursor_at(prompt_cols, width(query), cols);
    step(out, DrawOp::MoveTo(cursor, line));
    step(out, DrawOp::ShowCursor);
    assert(ops(out@) =~= before + input_line(state@, cols as int, height as int));
}

/// Draw a frame: the steps that put the picker on a screen of the given size.
pub fn draw_to(state: &SearchState, width: u16, height: u16, now: i64) -> (out: Vec<DrawOp>)
    requires
        state.well_formed(),
    ensures
        ops(out@) == frame(state@, width, height, now as int),
        height > 0 ==> forall|i: int|
            0 <= i < out@.len() ==> on_screen(
                (#[trigger] out@[i])@,
                width as int,
                height as int,
            ),
{
    let mut out: Vec<DrawOp> = Vec::new();
    step(&mut out, DrawOp::HideCursor);
    step(&mut out, DrawOp::MoveTo(0, 0));
    step(&mut out, DrawOp::ClearAll);
    let ghost start = ops(out@);
    let rows = state.visible_rows(window(height));
    let ghost shown = state@.window(match_rows(height));
    let mut i: usize = 0;
    assert(start + row_lines(shown.take(0), width as int, height as int, now as int) =~= start);
    while i < rows.len()
        invariant
            i <= rows@.len(),
            shown == state@.window(match_rows(height)),
            shown == crate::search::windowed(rows@),
            shown.len() <= match_rows(height),
            ages_show(shown.take(i as int), now as int),
            ops(out@) == start + row_lines(
                shown.take(i as int),
                width as int,
                height as int,
                now as int,
            ),
        decreases rows@.len() - i,
    {
        let (selected, row) = rows[i];
        let line: u16 = height - 3 - i as u16;
        let ghost before = ops(out@);
        draw_row(&mut out, selected, row, line, width, now);
        proof {
            let longer = shown.take(i + 1);
            assert(longer.drop_last() =~= shown.take(i as int));
            assert(longer.last() == (selected, row@));
            let drawn = row_line((selected, row@), line as int, width as int, now as int);
            assert(ops(out@) == before + drawn);
            assert(ops(out@) =~= start + (row_lines(
                shown.take(i as int),
                width as int,
                height as int,
                now as int,
            ) + drawn));
        }
        i += 1;
    }
    assert(shown.take(i as int) =~= shown);
    draw_footer(&mut out, state.match_count(), width, height);
    draw_input(&mut out, state, width, height);
    proof {
        assert(start =~= seq![Op::HideCursor, Op::MoveTo(0, 0), Op::ClearAll]);
        assert(ops(out@) =~= frame(state@, width, height, now as int));
        if height > 0 {
            a_frame_stays_on_the_screen(state@, width, height, now as int);
            assert forall|i: int| 0 <= i < out@.len() implies on_screen(
                (#[trigger] out@[i])@,
                width as int,
                height as int,
            ) by {
                assert(ops(out@)[i] == out@[i]@);
            }
        }
    }
    out
}

proof fn lemma_rows_on_screen(
    rows: Seq<(bool, HistoryRowView)>,
    cols: int,
    height: int,
    now: int,
)
    requires
        cols >= 0,
        rows.len() + 2 <= height || rows.len() == 0,
        ages_show(rows, now),
    ensures
        forall|i: int|
            0 <= i < row_lines(rows, cols, height, now).len() ==> on_screen(
                #[trigger] row_lines(rows, cols, height, now)[i],
                cols,
                height,
            ),
    decreases rows.len(),
{
    if rows.len() > 0 {
        lemma_rows_on_screen(rows.drop_last(), cols, height, now);
        let before = row_lines(rows.drop_last(), cols, height, now);
        let line = row_line(rows.last(), height - 3 - (rows.len() - 1), cols, now);
        let all = row_lines(rows, cols, height, now);
        assert forall|i: int| 0 <= i < all.len() implies on_screen(
            #[trigger] all[i],
            cols,
            height,
        ) by {
            if i < before.len() {
                assert(all[i] == before[i]);
            } else {
                assert(all[i] == line[i - before.len()]);
            }
        }
    }
}

/// A frame stays on the screen, however small that is, as long as the ages it shows take up
/// columns. It hides the cursor first and shows it last.
pub proof fn a_frame_stays_on_the_screen(search: Search, cols: u16, height: u16, now: int)
    requires
        height > 0,
    ensures
        ages_show(search.window(match_rows(height)), now) ==> forall|i: int|
            0 <= i < frame(search, cols, height, now).len() ==> on_screen(
                #[trigger] frame(search, cols, height, now)[i],
                cols as int,
                height as int,
            ),
        frame(search, cols, height, now)[0] == Op::HideCursor,
        frame(search, cols, height, now).last() == Op::ShowCursor,
{
    let c = cols as int;
    let h = height as int;
    let shown = search.window(match_rows(height));
    let start = seq![Op::HideCursor, Op::MoveTo(0, 0), Op::ClearAll];
    let rows = row_lines(shown, c, h, now);
    let foot = footer(search.matches().len(), c, h);
    let input = input_line(search, c, h);
    let all = frame(search, cols, height, now);
    if ages_show(shown, now) {
        lemma_rows_on_screen(shown, c, h, now);
    }
    assert forall|i: int| ages_show(shown, now) && 0 <= i < all.len() implies on_screen(
        #[trigger] all[i],
        c,
        h,
    ) by {
        if i < start.len() {
            assert(all[i] == start[i]);
        } else if i < start.len() + rows.len() {
            assert(all[i] == rows[i - start.len()]);
        } else if i < start.len() + rows.len() + foot.len() {
            assert(all[i] == foot[i - start.len() - rows.len()]);
        } else {
            assert(all[i] == input[i - start.len() - rows.len() - foot.len()]);
        }
    }
}

// ---------------------------------------------------------------------------------------------
// Key by key
// ---------------------------------------------------------------------------------------------

/// Outcomes, actions, and drawing steps say what they hold.
pub proof fn actions_are_their_fields(
    outcome: Outcome,
    cmd: String,
    text: String,
    width: u16,
    height: u16,
)
    ensures
        Outcome::Run(cmd)@ == OutcomeView::Run(cmd@),
        Outcome::Insert(cmd)@ == OutcomeView::Insert(cmd@),
        Outcome::Cancelled@ == OutcomeView::Cancelled,
        EventAction::Continue@ == EventActionView::Continue,
        EventAction::Resize(width, height)@ == EventActionView::Resize(width, height),
        EventAction::Finish(outcome)@ == EventActionView::Finish(outcome@),
        DrawOp::HideCursor@ == Op::HideCursor,
        DrawOp::ShowCursor@ == Op::ShowCursor,
        DrawOp::MoveTo(width, height)@ == Op::MoveTo(width as int, height as int),
        DrawOp::ClearAll@ == Op::ClearAll,
        DrawOp::Print(text)@ == Op::Print(text@),
        DrawOp::Bold@ == Op::Bold,
        DrawOp::Dim@ == Op::Dim,
        DrawOp::ResetAttributes@ == Op::ResetAttributes,
        DrawOp::Cyan@ == Op::Cyan,
        DrawOp::ResetColor@ == Op::ResetColor,
{
}

/// Whenever a command is selected, Enter runs it, and Right and Tab put it on the prompt, whatever
/// was typed to find it. Escape and ctrl+c cancel. The picker is left as it was.
pub proof fn accepting_hands_over_the_selected_command(
    search: Search,
    k: KeyEvent,
    visible: int,
    cmd: Seq<char>,
)
    requires
        search.selection() == Some(cmd),
        k.kind == KeyEventKind::Press,
    ensures
        k.code == KeyCode::Enter ==> handled(search, Event::Key(k), visible) == (
            search,
            EventActionView::Finish(OutcomeView::Run(cmd)),
        ),
        k.code == KeyCode::Right || k.code == KeyCode::Tab ==> handled(
            search,
            Event::Key(k),
            visible,
        ) == (search, EventActionView::Finish(OutcomeView::Insert(cmd))),
        handled(search, Event::Key(k), visible).1 == EventActionView::Finish(
            OutcomeView::Cancelled,
        ) <==> k.code == KeyCode::Esc || (k.code == KeyCode::Char('c') && k.modifiers.control),
        handled(search, Event::Key(k), visible).1 is Finish <==> k.code == KeyCode::Enter || k.code
            == KeyCode::Right || k.code == KeyCode::Tab || k.code == KeyCode::Esc || (k.code
            == KeyCode::Char('c') && k.modifiers.control),
{
}

/// Without a selection every key that would accept one cancels, and so do Escape and ctrl+c; no
/// other key ends the picker.
pub proof fn without_a_selection_accepting_cancels(search: Search, k: KeyEvent, visible: int)
    requires
        search.selection() is None,
        k.kind == KeyEventKind::Press,
    ensures
        handled(search, Event::Key(k), visible).1 == EventActionView::Finish(
            OutcomeView::Cancelled,
        ) <==> k.code == KeyCode::Enter || k.code == KeyCode::Right || k.code == KeyCode::Tab
            || k.code == KeyCode::Esc || (k.code == KeyCode::Char('c') && k.modifiers.control),
        handled(search, Event::Key(k), visible).1 is Finish ==> handled(
            search,
            Event::Key(k),
            visible,
        ) == (search, EventActionView::Finish(OutcomeView::Cancelled)),
{
}

/// A character typed without ctrl or alt goes to the end of the query, and the best match for what
/// is typed now is selected. With ctrl or alt nothing is typed.
pub proof fn plain_characters_are_typed(search: Search, k: KeyEvent, visible: int, c: char)
    requires
        k.kind == KeyEventKind::Press,
        k.code == KeyCode::Char(c),
    ensures
        !k.modifiers.control && !k.modifiers.alt ==> {
            let (after, action) = handled(search, Event::Key(k), visible);
            &&& typed(Event::Key(k)) == Some(c)
            &&& action == EventActionView::Continue
            &&& after.query == search.query.push(c)
            &&& after.selected == 0
            &&& after.offset == 0
            &&& after.rows == search.rows
            &&& after.cwd == search.cwd
            &&& after.dir_only == search.dir_only
        },
        k.modifiers.control || k.modifiers.alt ==> typed(Event::Key(k)) is None,
        !k.modifiers.control && k.modifiers.alt ==> handled(search, Event::Key(k), visible) == (
            search,
            EventActionView::Continue,
        ),
        k.modifiers.control && c != 'c' && c != 'r' && c != 'p' && c != 'n' && c != 'u' && c != 'w'
            ==> handled(search, Event::Key(k), visible) == (search, EventActionView::Continue),
{
}

/// Only a pressed character key without ctrl and alt types anything.
pub proof fn nothing_else_types(event: Event)
    requires
        !(event matches Event::Key(k) && k.kind == KeyEventKind::Press && k.code is Char
            && !k.modifiers.control && !k.modifiers.alt),
    ensures
        typed(event) is None,
{
}

/// The keys that edit the query: Backspace takes the last visible character off, ctrl+u everything,
/// and ctrl+w the last word. Each leaves the best match selected and the picker open.
pub proof fn editing_keys_shorten_the_query(search: Search, k: KeyEvent, visible: int)
    requires
        k.kind == KeyEventKind::Press,
    ensures
        ({
            let (after, action) = handled(search, Event::Key(k), visible);
            let edits = k.code == KeyCode::Backspace || (k.modifiers.control && (k.code
                == KeyCode::Char('u') || k.code == KeyCode::Char('w')));
            &&& k.code == KeyCode::Backspace ==> after.query == shortened(
                search.query,
                crate::unicode::last_cluster(search.query),
            )
            &&& k.modifiers.control && k.code == KeyCode::Char('u') ==> after.query == Seq::<
                char,
            >::empty()
            &&& k.modifiers.control && k.code == KeyCode::Char('w') ==> after.query
                == without_word(search.query)
            &&& edits ==> action == EventActionView::Continue && after.selected == 0 && after.offset
                == 0 && after.rows == search.rows && after.cwd == search.cwd && after.dir_only
                == search.dir_only
        }),
{
}

/// The keys that move: Up and ctrl+p to the next match, Down and ctrl+n to the one before. The
/// query and the scope stay as they are.
pub proof fn moving_keys_move_the_selection(search: Search, k: KeyEvent, visible: int)
    requires
        search.consistent(),
        k.kind == KeyEventKind::Press,
    ensures
        ({
            let (after, action) = handled(search, Event::Key(k), visible);
            let up = k.code == KeyCode::Up || (k.modifiers.control && k.code == KeyCode::Char(
                'p',
            ));
            let down = k.code == KeyCode::Down || (k.modifiers.control && k.code == KeyCode::Char(
                'n',
            ));
            &&& up && search.selected + 1 < search.matches().len() ==> after.selected
                == search.selected + 1
            &&& up && search.selected + 1 >= search.matches().len() ==> after.selected
                == search.selected
            &&& down && search.selected > 0 ==> after.selected == search.selected - 1
            &&& down && search.selected == 0 ==> after.selected == 0
            &&& (up || down) && visible > 0 ==> after.offset <= after.selected < after.offset
                + visible
            &&& up || down ==> action == EventActionView::Continue && after.query == search.query
                && after.rows == search.rows && after.cwd == search.cwd && after.dir_only
                == search.dir_only
        }),
{
}

/// Ctrl+r switches the scope where there is a directory, and does nothing where there is none.
pub proof fn ctrl_r_switches_the_scope(search: Search, k: KeyEvent, visible: int)
    requires
        k.kind == KeyEventKind::Press,
        k.code == KeyCode::Char('r'),
        k.modifiers.control,
    ensures
        ({
            let (after, action) = handled(search, Event::Key(k), visible);
            &&& action == EventActionView::Continue
            &&& after.query == search.query && after.rows == search.rows && after.cwd == search.cwd
            &&& search.cwd is Some ==> after.dir_only == !search.dir_only && after.selected == 0
                && after.offset == 0
            &&& search.cwd is None ==> after == search
        }),
{
}

/// Keys and events without a meaning change nothing, and a resize is passed on.
pub proof fn other_events_change_nothing(search: Search, event: Event, visible: int, w: u16, h: u16)
    ensures
        handled(search, Event::Resize(w, h), visible) == (search, EventActionView::Resize(w, h)),
        event is FocusGained || event is FocusLost || event is Mouse || event is Paste ==> handled(
            search,
            event,
            visible,
        ) == (search, EventActionView::Continue),
        event matches Event::Key(k) ==> k.kind != KeyEventKind::Press || k.code == KeyCode::Left
            || k.code == KeyCode::Other ==> handled(search, event, visible) == (
            search,
            EventActionView::Continue,
        ),
{
}

// ---------------------------------------------------------------------------------------------
// Piece by piece
// ---------------------------------------------------------------------------------------------

/// Two rows of the screen are for the footer and the input.
pub proof fn two_rows_are_not_for_matches(height: u16)
    ensures
        height >= 2 ==> match_rows(height) + 2 == height,
        height < 2 ==> match_rows(height) == 0,
{
}

/// A command is shown character by character: a line feed as two spaces, a carriage return and a
/// tab as one, and every other character as it is.
pub proof fn a_command_is_flattened_char_by_char(a: Seq<char>, b: Seq<char>, c: char)
    ensures
        flattened(Seq::empty()) == Seq::<char>::empty(),
        flattened(a + b) == flattened(a) + flattened(b),
        flattened(seq!['\n']) == seq![' ', ' '],
        flattened(seq!['\r']) == seq![' '],
        flattened(seq!['\t']) == seq![' '],
        c != '\n' && c != '\r' && c != '\t' ==> flattened(seq![c]) == seq![c],
    decreases b.len(),
{
    let line = seq!['\n'];
    let back = seq!['\r'];
    let tab = seq!['\t'];
    let one = seq![c];
    assert(flattened(Seq::empty()) =~= Seq::empty());
    assert(line.drop_last() =~= Seq::empty());
    assert(back.drop_last() =~= Seq::empty());
    assert(tab.drop_last() =~= Seq::empty());
    assert(one.drop_last() =~= Seq::empty());
    assert(flattened(line) =~= seq![' ', ' ']);
    assert(flattened(back) =~= seq![' ']);
    assert(flattened(tab) =~= seq![' ']);
    assert(c != '\n' && c != '\r' && c != '\t' ==> flattened(one) =~= seq![c]);
    if b.len() == 0 {
        assert(a + b =~= a);
        assert(flattened(a) + flattened(b) =~= flattened(a));
    } else {
        assert((a + b).drop_last() =~= a + b.drop_last());
        a_command_is_flattened_char_by_char(a, b.drop_last(), c);
        assert(flattened(a + b) =~= flattened(a) + flattened(b));
    }
}

/// Columns add up.
pub proof fn columns_add_up(a: Seq<usize>, b: Seq<usize>, w: usize)
    ensures
        total(Seq::empty()) == 0,
        total(seq![w]) == w,
        total(a + b) == total(a) + total(b),
    decreases a.len(),
{
    let one = seq![w];
    assert(one.drop_first() =~= Seq::empty());
    assert(total(one.drop_first()) == 0);
    if a.len() == 0 {
        assert(a + b =~= b);
    } else {
        assert((a + b).drop_first() =~= a.drop_first() + b);
        columns_add_up(a.drop_first(), b, w);
    }
}

/// A text is cut between visible characters: what is kept takes no more columns than there are, and
/// with one more visible character it would.
pub proof fn a_text_is_cut_where_it_stops_fitting(text: Seq<char>, columns: int)
    requires
        columns >= 0,
    ensures
        ({
            let parts = grapheme_clusters(text);
            let widths = parts.map_values(|part: Seq<char>| display_width(part));
            exists|n: int|
                {
                    &&& 0 <= n <= parts.len()
                    &&& truncated(text, columns) == #[trigger] parts.take(n).flatten()
                    &&& total(widths.take(n)) <= columns
                    &&& n < parts.len() ==> total(widths.take(n + 1)) > columns
                }
        }),
{
    let parts = grapheme_clusters(text);
    let widths = parts.map_values(|part: Seq<char>| display_width(part));
    assert(widths =~= cluster_widths(text));
    as_much_as_fits_is_kept(widths, columns);
    let n = fitting(widths, columns);
    assert(truncated(text, columns) == parts.take(n).flatten());
}

/// The steps of a frame keep their number, their order, and what they say.
pub proof fn drawing_steps_keep_their_places(frame: Seq<DrawOp>)
    ensures
        ops(frame).len() == frame.len(),
        forall|i: int| 0 <= i < frame.len() ==> #[trigger] ops(frame)[i] == frame[i]@,
{
}

/// A match is drawn from the left edge of its line: a marker, bold and cyan when it is selected and
/// blank when it is not, and as much of the command as leaves room for a gap and the age, which
/// ends at the right edge. An age that would fill the line is left out.
pub proof fn a_match_is_drawn_with_its_marker_and_its_age(
    row: HistoryRowView,
    line: int,
    cols: int,
    now: int,
)
    requires
        cols >= 0,
    ensures
        ({
            let time = age(now, row.ts as int);
            let taken = display_width(time) as int;
            let room = if cols >= 3 + taken {
                cols - 3 - taken
            } else {
                0
            };
            let cmd = truncated(flattened(row.cmd), room);
            let plain = row_line((false, row), line, cols, now);
            let marked = row_line((true, row), line, cols, now);
            let dated = seq![
                Op::MoveTo(cols - taken, line),
                Op::Dim,
                Op::Print(time),
                Op::ResetAttributes,
            ];
            let left = seq![Op::MoveTo(0, line), Op::Print("  "@), Op::Print(cmd)];
            let bold = seq![
                Op::MoveTo(0, line),
                Op::Bold,
                Op::Cyan,
                Op::Print("> "@),
                Op::Print(cmd),
                Op::ResetColor,
                Op::ResetAttributes,
            ];
            &&& taken < cols ==> plain == left + dated && marked == bold + dated
            &&& taken >= cols ==> plain == left && marked == bold
        }),
{
    let time = age(now, row.ts as int);
    let taken = display_width(time) as int;
    let room = if cols >= 3 + taken {
        cols - 3 - taken
    } else {
        0
    };
    let cmd = truncated(flattened(row.cmd), room);
    let plain = row_line((false, row), line, cols, now);
    let marked = row_line((true, row), line, cols, now);
    let dated = seq![
        Op::MoveTo(cols - taken, line),
        Op::Dim,
        Op::Print(time),
        Op::ResetAttributes,
    ];
    let left = seq![Op::MoveTo(0, line), Op::Print("  "@), Op::Print(cmd)];
    let bold = seq![
        Op::MoveTo(0, line),
        Op::Bold,
        Op::Cyan,
        Op::Print("> "@),
        Op::Print(cmd),
        Op::ResetColor,
        Op::ResetAttributes,
    ];
    if taken < cols {
        assert(plain =~= left + dated);
        assert(marked =~= bold + dated);
    } else {
        assert(plain =~= left);
        assert(marked =~= bold);
    }
}

/// Matches are drawn from the footer upward: the first three rows above the bottom of the screen,
/// and each other one line above the one before.
pub proof fn matches_are_drawn_from_the_bottom_up(
    rows: Seq<(bool, HistoryRowView)>,
    row: (bool, HistoryRowView),
    cols: int,
    height: int,
    now: int,
)
    ensures
        row_lines(Seq::empty(), cols, height, now) == Seq::<Op>::empty(),
        row_lines(rows.push(row), cols, height, now) == row_lines(rows, cols, height, now)
            + row_line(row, height - 3 - rows.len(), cols, now),
{
    assert(rows.push(row).drop_last() =~= rows);
}

/// The input stands on the last row: the prompt, which names the scope, and the query. The cursor
/// shows up after the query, or on the right edge when that is past it.
pub proof fn the_input_is_the_prompt_and_the_query(search: Search, cols: int, height: int)
    requires
        cols >= 0,
    ensures
        ({
            let line = if height > 0 {
                height - 1
            } else {
                0
            };
            let narrow_end = display_width("dir> "@) + display_width(search.query);
            let wide_end = display_width("> "@) + display_width(search.query);
            let at = |end: int|
                if cols == 0 {
                    0
                } else if end <= cols - 1 {
                    end
                } else {
                    cols - 1
                };
            &&& search.dir_only ==> input_line(search, cols, height) == seq![
                Op::MoveTo(0, line),
                Op::Bold,
                Op::Cyan,
                Op::Print("dir"@),
                Op::ResetColor,
                Op::ResetAttributes,
                Op::Print("> "@),
                Op::Print(search.query),
                Op::MoveTo(at(narrow_end), line),
                Op::ShowCursor,
            ]
            &&& !search.dir_only ==> input_line(search, cols, height) == seq![
                Op::MoveTo(0, line),
                Op::Print("> "@),
                Op::Print(search.query),
                Op::MoveTo(at(wide_end), line),
                Op::ShowCursor,
            ]
        }),
{
}

/// The footer stands on the row above the last, if there is one: how many match and what the keys
/// do, dim and cut to the width.
pub proof fn the_footer_counts_the_matches(matches: nat, cols: int, height: int)
    ensures
        height >= 2 ==> footer(matches, cols, height) == seq![
            Op::MoveTo(0, height - 2),
            Op::Dim,
            Op::Print(
                truncated(
                    decimal(matches)
                        + " matches  up/down move  enter run  right insert  ctrl-r dir  esc cancel"@,
                    cols,
                ),
            ),
            Op::ResetAttributes,
        ],
        height < 2 ==> footer(matches, cols, height) == Seq::<Op>::empty(),
{
}

/// A frame hides the cursor and clears the screen, then draws the matches in the window, as many as
/// there are rows besides the last two, the footer, and the input.
pub proof fn a_frame_is_matches_footer_and_input(search: Search, cols: u16, height: u16, now: int)
    ensures
        ({
            let rows = if height >= 2 {
                search.window(height - 2)
            } else {
                Seq::empty()
            };
            frame(search, cols, height, now) == seq![
                Op::HideCursor,
                Op::MoveTo(0, 0),
                Op::ClearAll,
            ] + row_lines(rows, cols as int, height as int, now) + footer(
                search.matches().len(),
                cols as int,
                height as int,
            ) + input_line(search, cols as int, height as int)
        }),
{
    assert(search.window(0) =~= Seq::empty());
}

} // verus!
