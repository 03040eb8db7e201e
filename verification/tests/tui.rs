//! The key map with synthesized events, and frames as lists of drawing steps.

use padloper::db::HistoryRow;
use padloper::search::SearchState;
use padloper::tui::{
    cursor_at, draw_match, draw_to, fallback, fit, flatten, handle_event, truncate, window, DrawOp,
    Event, EventAction, KeyCode, KeyEvent, KeyEventKind, KeyModifiers, Outcome,
};

const NONE: KeyModifiers = KeyModifiers { control: false, alt: false };
const CONTROL: KeyModifiers = KeyModifiers { control: true, alt: false };
const ALT: KeyModifiers = KeyModifiers { control: false, alt: true };

// One row in the test cwd and one outside it, so dir-only filtering shows up as a change in what
// matches. The second is multiline, which drawing has to flatten.
fn rows() -> Vec<HistoryRow> {
    vec![
        HistoryRow { cmd: "git status".into(), ts: 100, cwd: Some("/work".into()) },
        HistoryRow { cmd: "printf foo\nbar".into(), ts: 50, cwd: Some("/elsewhere".into()) },
    ]
}

fn test_state(query: &str) -> SearchState {
    SearchState::new(rows(), query, Some("/work".into()))
}

fn press(code: KeyCode, modifiers: KeyModifiers) -> Event {
    Event::Key(KeyEvent { code, modifiers, kind: KeyEventKind::Press })
}

fn key(code: KeyCode) -> Event {
    press(code, NONE)
}

fn ctrl(c: char) -> Event {
    press(KeyCode::Char(c), CONTROL)
}

// Unwraps a finished action. Panics on Continue, which is the failure this is checking for: a key
// that was meant to end the picker.
fn outcome(action: EventAction) -> Outcome {
    match action {
        EventAction::Finish(outcome) => outcome,
        _ => panic!("expected a finished outcome"),
    }
}

fn printed(frame: &[DrawOp]) -> String {
    let mut text = String::new();
    for op in frame {
        if let DrawOp::Print(part) = op {
            text.push_str(part);
            text.push('\n');
        }
    }
    text
}

// One case per way a byte count would go wrong: a wide character, a multi-char grapheme, and an
// emoji joined by zero-width joiners.
#[test]
fn truncation_uses_terminal_columns_and_keeps_graphemes_whole() {
    assert_eq!(truncate("a界b", 3), "a界");
    assert_eq!(truncate("e\u{301}x", 1), "e\u{301}");
    assert_eq!(truncate("x👨‍👩‍👧‍👦y", 3), "x👨‍👩‍👧‍👦");
}

// A terminal too short for any match row must report 0 rather than underflow, since drawing indexes
// backwards from the bottom.
#[test]
fn terminal_dimensions_have_safe_minimums() {
    assert_eq!(window(0), 0);
    assert_eq!(window(2), 0);
    assert_eq!(window(5), 3);
    assert_eq!(fallback((0, 0)), (80, 24));
    assert_eq!(fallback((120, 40)), (120, 40));
    assert_eq!(fallback((0, 40)), (80, 40));
    assert_eq!(fallback((120, 0)), (120, 24));
}

// Right and Tab both insert. Enter runs. On a query matching nothing all of them cancel, so the
// picker never traps the user.
#[test]
fn selection_keys_finish_with_the_expected_action() {
    let mut state = test_state("");
    assert!(matches!(
        outcome(handle_event(&mut state, key(KeyCode::Enter), 3)),
        Outcome::Run(cmd) if cmd == "git status"
    ));
    assert!(matches!(
        outcome(handle_event(&mut state, key(KeyCode::Right), 3)),
        Outcome::Insert(cmd) if cmd == "git status"
    ));
    assert!(matches!(
        outcome(handle_event(&mut state, key(KeyCode::Tab), 3)),
        Outcome::Insert(cmd) if cmd == "git status"
    ));

    let mut empty = test_state("no match");
    assert!(matches!(
        outcome(handle_event(&mut empty, key(KeyCode::Enter), 3)),
        Outcome::Cancelled
    ));
    assert!(matches!(
        outcome(handle_event(&mut empty, key(KeyCode::Right), 3)),
        Outcome::Cancelled
    ));
}

#[test]
fn cancel_keys_finish_without_a_selection() {
    for event in [key(KeyCode::Esc), ctrl('c')] {
        let mut state = test_state("");
        assert!(matches!(outcome(handle_event(&mut state, event, 3)), Outcome::Cancelled));
    }
}

// Walks the whole editing key map. The arrows and their ctrl aliases must agree, and each editing
// key must reach the matching SearchState call, since nothing else connects the two.
#[test]
fn editing_and_movement_keys_update_search_state() {
    let mut state = test_state("");
    handle_event(&mut state, key(KeyCode::Up), 2);
    assert_eq!(state.selection(), Some("printf foo\nbar"));
    handle_event(&mut state, key(KeyCode::Down), 2);
    assert_eq!(state.selection(), Some("git status"));
    handle_event(&mut state, ctrl('p'), 2);
    assert_eq!(state.selection(), Some("printf foo\nbar"));
    handle_event(&mut state, ctrl('n'), 2);
    assert_eq!(state.selection(), Some("git status"));

    handle_event(&mut state, key(KeyCode::Char('g')), 2);
    assert_eq!(state.query(), "g");
    handle_event(&mut state, key(KeyCode::Backspace), 2);
    assert_eq!(state.query(), "");
    for c in "git sta".chars() {
        handle_event(&mut state, key(KeyCode::Char(c)), 2);
    }
    handle_event(&mut state, ctrl('w'), 2);
    assert_eq!(state.query(), "git ");
    handle_event(&mut state, ctrl('u'), 2);
    assert_eq!(state.query(), "");

    assert!(!state.dir_only());
    handle_event(&mut state, ctrl('r'), 2);
    assert!(state.dir_only());
}

// Everything the picker must ignore. The release event is the important one: terminals speaking the
// kitty protocol send a Release for every Press, and handling both would type each character twice.
#[test]
fn resize_and_unbound_events_do_not_edit_the_query() {
    let mut state = test_state("");
    assert!(matches!(
        handle_event(&mut state, Event::Resize(90, 30), 2),
        EventAction::Resize(90, 30)
    ));
    handle_event(&mut state, press(KeyCode::Char('x'), ALT), 2);
    handle_event(&mut state, ctrl('x'), 2);
    handle_event(&mut state, key(KeyCode::Left), 2);
    handle_event(&mut state, Event::FocusGained, 2);

    let release =
        KeyEvent { code: KeyCode::Char('x'), modifiers: NONE, kind: KeyEventKind::Release };
    handle_event(&mut state, Event::Key(release), 2);
    assert_eq!(state.query(), "");
}

// Checks for what has to reach the screen, then runs the sizes where the layout arithmetic could
// underflow. A 1x1 terminal leaves room for nothing at all and still must not panic.
#[test]
fn rendering_covers_rows_scopes_and_small_terminals() {
    let mut state = test_state("");
    // "printf foo\nbar" has to arrive flattened onto one row.
    let rendered = printed(&draw_to(&state, 80, 5, 200));
    assert!(rendered.contains("git status"));
    assert!(rendered.contains("printf foo  bar"));
    assert!(rendered.contains("2 matches"));

    state.toggle_dir_only();
    assert!(printed(&draw_to(&state, 8, 2, 200)).contains("dir"));

    let long = test_state("git status with a long query");
    assert!(!draw_to(&long, 1, 1, 200).is_empty());
}

#[test]
fn other_events_go_on_without_a_change() {
    let mut state = test_state("gi");
    let repeat =
        KeyEvent { code: KeyCode::Enter, modifiers: NONE, kind: KeyEventKind::Repeat };
    for event in [
        Event::FocusLost,
        Event::Mouse,
        Event::Paste,
        Event::Key(repeat),
        key(KeyCode::Other),
        press(KeyCode::Char('c'), ALT),
    ] {
        assert!(matches!(handle_event(&mut state, event, 2), EventAction::Continue));
    }
    assert_eq!(state.query(), "gi");
    assert_eq!(state.match_count(), 1);
}

// The whole of a small frame, step by step.
#[test]
fn a_frame_is_drawn_from_the_bottom_up() {
    let state = SearchState::new(rows(), "", None);
    let frame = format!("{:?}", draw_to(&state, 20, 4, 170));
    let footer = "2 matches  up/down m";
    let expected = format!(
        "[HideCursor, MoveTo(0, 0), ClearAll, \
         MoveTo(0, 1), Bold, Cyan, Print(\"> \"), Print(\"git status\"), ResetColor, \
         ResetAttributes, MoveTo(18, 1), Dim, Print(\"1m\"), ResetAttributes, \
         MoveTo(0, 0), Print(\"  \"), Print(\"printf foo  bar\"), \
         MoveTo(18, 0), Dim, Print(\"2m\"), ResetAttributes, \
         MoveTo(0, 2), Dim, Print({footer:?}), ResetAttributes, \
         MoveTo(0, 3), Print(\"> \"), Print(\"\"), MoveTo(2, 3), ShowCursor]"
    );
    assert_eq!(frame, expected);
}

#[test]
fn the_narrowed_prompt_is_drawn_in_pieces_and_measured_whole() {
    let mut state = test_state("git");
    state.toggle_dir_only();
    let frame = format!("{:?}", draw_to(&state, 20, 1, 200));
    assert_eq!(
        frame,
        "[HideCursor, MoveTo(0, 0), ClearAll, MoveTo(0, 0), Bold, Cyan, Print(\"dir\"), \
         ResetColor, ResetAttributes, Print(\"> \"), Print(\"git\"), MoveTo(8, 0), ShowCursor]"
    );
}

#[test]
fn a_long_query_parks_the_cursor_on_the_right_edge() {
    assert_eq!(cursor_at(2, 3, 80), 5);
    assert_eq!(cursor_at(2, 77, 80), 79);
    assert_eq!(cursor_at(2, 78, 80), 79);
    assert_eq!(cursor_at(usize::MAX, usize::MAX, 80), 79);
    assert_eq!(cursor_at(2, 0, 1), 0);
    assert_eq!(cursor_at(2, 0, 0), 0);
}

#[test]
fn an_age_without_room_is_left_out() {
    let mut frame = Vec::new();
    draw_match(&mut frame, false, "ls".into(), "12mo".into(), 4, 4, 7);
    assert_eq!(format!("{frame:?}"), "[MoveTo(0, 7), Print(\"  \"), Print(\"ls\")]");
}

#[test]
fn pieces_are_kept_while_they_fit() {
    assert_eq!(fit(&vec![1, 2, 1], 3), 2);
    assert_eq!(fit(&vec![1, 2, 1], 4), 3);
    assert_eq!(fit(&vec![2], 1), 0);
    assert_eq!(fit(&vec![0, 0], 0), 2);
    assert_eq!(fit(&Vec::new(), 5), 0);
}

#[test]
fn plain_text_is_cut_after_that_many_characters() {
    assert_eq!(truncate("hello", 3), "hel");
    assert_eq!(truncate("hello", 9), "hello");
    assert_eq!(truncate("hello", 0), "");
    assert_eq!(truncate("", 4), "");
}

#[test]
fn line_breaks_and_tabs_become_spaces() {
    assert_eq!(flatten("a\nb\r\tc"), "a  b  c");
    assert_eq!(flatten(""), "");
}

#[test]
fn every_frame_stays_on_its_screen() {
    let mut state = test_state("");
    for height in 1..6 {
        for width in 1..12 {
            state.ensure_visible(window(height));
            let frame = draw_to(&state, width, height, 200);
            assert!(matches!(frame.first(), Some(DrawOp::HideCursor)));
            assert!(matches!(frame.last(), Some(DrawOp::ShowCursor)));
            for op in &frame {
                if let DrawOp::MoveTo(column, row) = op {
                    assert!(*column < width && *row < height, "{width}x{height}: {op:?}");
                }
            }
        }
    }
}

#[test]
fn ctrl_wins_over_alt() {
    let mut state = test_state("");
    let both = KeyModifiers { control: true, alt: true };
    assert!(matches!(
        outcome(handle_event(&mut state, press(KeyCode::Char('c'), both), 3)),
        Outcome::Cancelled
    ));
}
