//! The picker without a terminal: filtering, ranking, scope, editing, and scrolling.

use nucleo_matcher::chars::{is_upper_case, normalize, to_lower_case};
use padloper::db::HistoryRow;
use padloper::search::{
    drop_last_cluster, fold_lowercase, holds_capital, is_accented, rank, searchable, SearchState,
};

fn rows(cmds: &[&str]) -> Vec<HistoryRow> {
    rows_in(&cmds.iter().map(|&cmd| (cmd, None)).collect::<Vec<_>>())
}

// Newest first, like Db::recent.
fn rows_in(cmds: &[(&str, Option<&str>)]) -> Vec<HistoryRow> {
    cmds.iter()
        .enumerate()
        .map(|(i, (cmd, cwd))| HistoryRow {
            cmd: cmd.to_string(),
            ts: 1000 - i as i64,
            cwd: cwd.map(str::to_string),
        })
        .collect()
}

// A window big enough to hold everything, for tests about ranking rather than scrolling.
fn matched(state: &SearchState) -> Vec<&str> {
    shown(state, usize::MAX)
}

fn shown(state: &SearchState, visible: usize) -> Vec<&str> {
    state.visible_rows(visible).into_iter().map(|(_, r)| r.cmd.as_str()).collect()
}

#[test]
fn an_empty_query_keeps_recency_order() {
    let state = SearchState::new(rows(&["newest", "older", "oldest"]), "", None);
    assert_eq!(matched(&state), ["newest", "older", "oldest"]);
    assert_eq!(state.selection(), Some("newest"));
}

#[test]
fn typing_filters_to_fuzzy_matches() {
    let mut state = SearchState::new(rows(&["git status", "cargo build", "git push"]), "", None);
    for c in "git".chars() {
        state.push_char(c);
    }
    assert_eq!(state.match_count(), 2);
    assert!(matched(&state).iter().all(|cmd| cmd.starts_with("git")));
}

// Both contain "make", and the matcher scores the shorter one at least as well, so this fixes the
// tiebreak direction rather than the score.
#[test]
fn equal_scores_prefer_the_newer_command() {
    let mut state = SearchState::new(rows(&["make test", "make test x"]), "", None);
    for c in "make".chars() {
        state.push_char(c);
    }
    assert_eq!(matched(&state)[0], "make test");
}

#[test]
fn no_match_yields_no_selection() {
    let state = SearchState::new(rows(&["ls"]), "zzzz", None);
    assert_eq!(state.match_count(), 0);
    assert_eq!(state.selection(), None);
}

// Holding an arrow key past either end must not wrap or panic.
#[test]
fn selection_clamps_at_both_ends() {
    let mut state = SearchState::new(rows(&["a", "b"]), "", None);
    state.move_down(10);
    assert_eq!(state.selection(), Some("a"));
    state.move_up(10);
    state.move_up(10);
    state.move_up(10);
    assert_eq!(state.selection(), Some("b"));
}

// Four matches in a two-row window: the offset has to move at the far edge and come back on the way
// down.
#[test]
fn the_window_follows_the_selection() {
    let mut state = SearchState::new(rows(&["a", "b", "c", "d"]), "", None);
    state.move_up(2);
    state.move_up(2);
    assert_eq!(shown(&state, 2), ["b", "c"]);
    state.move_down(2);
    state.move_down(2);
    assert_eq!(shown(&state, 2), ["a", "b"]);
}

// Otherwise a stale index would leave Enter pointing at whatever row landed in that slot after the
// new query reordered things.
#[test]
fn refilter_resets_the_selection_to_the_top() {
    let mut state = SearchState::new(rows(&["aa", "ab", "ac"]), "", None);
    state.move_down(10);
    state.push_char('a');
    assert_eq!(state.selection(), Some("aa"));
}

#[test]
fn ctrl_w_deletes_the_last_word_and_ctrl_u_clears() {
    let mut state = SearchState::new(rows(&["git status"]), "", None);
    for c in "git sta".chars() {
        state.push_char(c);
    }
    state.delete_word();
    assert_eq!(state.query(), "git ");
    state.delete_word();
    assert_eq!(state.query(), "");
    for c in "xy".chars() {
        state.push_char(c);
    }
    state.clear_line();
    assert_eq!(state.query(), "");
    assert_eq!(state.match_count(), 1);
}

// "e" plus a combining acute is one grapheme and two chars. Popping a char would leave a bare "e"
// on screen and take two presses.
#[test]
fn backspace_removes_one_visible_character() {
    let mut state = SearchState::new(rows(&["else"]), "e\u{301}", None);
    state.backspace();
    assert_eq!(state.query(), "");
}

// The row with no cwd drops out along with the one from another directory. Unknown is not treated
// as a match, so dir-only never shows a command it cannot place. Toggling back restores all three.
#[test]
fn dir_only_narrows_to_the_current_directory_and_back() {
    let mut state = SearchState::new(
        rows_in(&[
            ("make test", Some("/here")),
            ("cargo build", Some("/elsewhere")),
            ("ls", None),
        ]),
        "",
        Some("/here".to_string()),
    );
    assert_eq!(state.match_count(), 3);
    state.toggle_dir_only();
    assert!(state.dir_only());
    assert_eq!(matched(&state), ["make test"]);
    state.toggle_dir_only();
    assert!(!state.dir_only());
    assert_eq!(state.match_count(), 3);
}

// Scope and query are separate filters, both applied. Narrowing does not clear the query the user
// already typed.
#[test]
fn dir_only_composes_with_a_query() {
    let mut state = SearchState::new(
        rows_in(&[("git status", Some("/elsewhere")), ("git log", Some("/here"))]),
        "git",
        Some("/here".to_string()),
    );
    assert_eq!(state.match_count(), 2);
    state.toggle_dir_only();
    assert_eq!(matched(&state), ["git log"]);
}

// Narrowing can shrink the list under the selection, so it returns to the top like any other
// refilter. A kept index could point past the end or at a row the user never chose.
#[test]
fn dir_only_resets_the_selection() {
    let mut state = SearchState::new(
        rows_in(&[("a", Some("/here")), ("b", Some("/here"))]),
        "",
        Some("/here".to_string()),
    );
    state.move_up(10);
    state.toggle_dir_only();
    assert_eq!(state.selection(), Some("a"));
}

// With no directory to compare against the toggle must stay off, or dir-only mode would silently
// match nothing.
#[test]
fn the_toggle_does_nothing_without_a_directory() {
    let mut state = SearchState::new(rows_in(&[("ls", Some("/here"))]), "", None);
    state.toggle_dir_only();
    assert!(!state.dir_only());
    assert_eq!(state.match_count(), 1);
}

// U+2003 is an em space. char::is_whitespace covers it, so ctrl+w stops there instead of eating the
// line back to the start.
#[test]
fn ctrl_w_treats_unicode_whitespace_as_a_separator() {
    let mut state = SearchState::new(rows(&["git status"]), "git\u{2003}sta", None);
    state.delete_word();
    assert_eq!(state.query(), "git\u{2003}");
    state.delete_word();
    assert_eq!(state.query(), "");
}

#[test]
fn a_ranking_drops_what_does_not_match_and_breaks_ties_by_position() {
    assert_eq!(rank(&vec![Some(3), None, Some(7), Some(3), Some(0), Some(7)]), [2, 5, 0, 3, 4]);
    assert!(rank(&vec![None, None]).is_empty());
    assert!(rank(&Vec::new()).is_empty());
}

// A better match wins over a newer one, and one capital makes the query case sensitive.
#[test]
fn scores_order_the_matches() {
    let state = SearchState::new(rows(&["m a k e", "make"]), "make", None);
    assert_eq!(matched(&state), ["make", "m a k e"]);
    let lower = SearchState::new(rows(&["Makefile", "makefile"]), "make", None);
    assert_eq!(lower.match_count(), 2);
    let upper = SearchState::new(rows(&["Makefile", "makefile"]), "Make", None);
    assert_eq!(matched(&upper), ["Makefile"]);
}

#[test]
fn a_query_is_several_words_in_any_order() {
    let state = SearchState::new(rows(&["git status", "status quo", "git log"]), "status git", None);
    assert_eq!(matched(&state), ["git status"]);
    let excluded = SearchState::new(rows(&["git status", "git log"]), "git !log", None);
    assert_eq!(matched(&excluded), ["git status"]);
}

#[test]
fn a_resize_cannot_leave_the_selection_off_screen() {
    let mut state = SearchState::new(rows(&["a", "b", "c", "d"]), "", None);
    for _ in 0..3 {
        state.move_up(4);
    }
    state.ensure_visible(2);
    let window = state.visible_rows(2);
    assert_eq!(window.len(), 2);
    assert_eq!((window[0].0, window[0].1.cmd.as_str()), (false, "c"));
    assert_eq!((window[1].0, window[1].1.cmd.as_str()), (true, "d"));
    state.ensure_visible(0);
    assert!(state.visible_rows(0).is_empty());
    assert_eq!(shown(&state, 9), ["d"]);
}

#[test]
fn only_the_last_cluster_is_dropped() {
    assert_eq!(drop_last_cluster("abc", &Some("c".into())), "ab");
    assert_eq!(drop_last_cluster("ae\u{301}", &Some("e\u{301}".into())), "a");
    assert_eq!(drop_last_cluster("", &None), "");
}

#[test]
fn backspace_takes_a_family_in_one_press() {
    let mut state = SearchState::new(rows(&["x"]), "x\u{1f468}\u{200d}\u{1f469}\u{200d}\u{1f467}", None);
    state.backspace();
    assert_eq!(state.query(), "x");
    state.backspace();
    state.backspace();
    assert_eq!(state.query(), "");
}

#[test]
fn ctrl_w_deletes_trailing_blanks_with_the_word() {
    let mut state = SearchState::new(rows(&["x"]), "one two  \t", None);
    state.delete_word();
    assert_eq!(state.query(), "one ");
}

// Only a word and a command that are both very long are out of bounds.
#[test]
fn very_long_words_and_commands_do_not_go_together() {
    let short = rows(&["ls"]);
    let long = rows(&[&"x".repeat(3000)]);
    assert!(searchable(&short, &"x".repeat(3000)));
    assert!(searchable(&long, &"x".repeat(2520)));
    assert!(!searchable(&long, &"x".repeat(2521)));
    // Words are short however many there are, and an escaped space ends none.
    assert!(searchable(&long, &"xyz ".repeat(1000)));
    assert!(!searchable(&long, &"xyz\\ ".repeat(1000)));
    // A backslash may count twice.
    assert!(searchable(&long, &"\\".repeat(1260)));
    assert!(!searchable(&long, &"\\".repeat(1261)));
    assert!(searchable(&short, &"x".repeat(131071)));
    assert!(!searchable(&short, &"x".repeat(131072)));

    let state = SearchState::new(long, &"x".repeat(2520), None);
    assert_eq!(state.match_count(), 1);
    assert!(!state.accepts('x'));
    assert!(state.accepts(' '));
    assert!(SearchState::new(short, "", None).accepts('x'));
}

// The capital stands in one word and the other words are case sensitive for it too.
#[test]
fn one_capital_makes_every_word_case_sensitive() {
    let candidates = ["Git STATUS", "Git status", "git status"];
    let lower = SearchState::new(rows(&candidates), "git status", None);
    assert_eq!(lower.match_count(), 3);
    let upper = SearchState::new(rows(&candidates), "Git status", None);
    assert_eq!(matched(&upper), ["Git status"]);
    let last = SearchState::new(rows(&candidates), "git STATUS", None);
    assert!(matched(&last).is_empty());
    // Deleting the capital ignores case again.
    let mut state = SearchState::new(rows(&candidates), "status G", None);
    assert_eq!(matched(&state), ["Git status"]);
    state.backspace();
    assert_eq!(state.match_count(), 3);
}

#[test]
fn a_capital_is_found_anywhere_in_a_query() {
    assert!(!holds_capital(""));
    assert!(!holds_capital("git log -p 2>&1"));
    assert!(holds_capital("git Log"));
    assert!(holds_capital("gi\u{394}"));
    assert!(!holds_capital("gi\u{3b4}"));
    // A final sigma folds to another letter and is lowercase all the same.
    assert!(!holds_capital("\u{3c2} git"));
    assert!(!holds_capital("\u{3b1}\u{345} \u{b5}s"));
    // Only the first char of a visible character counts, and here the letter is the second.
    assert!(!holds_capital("\u{600}A"));
    assert!(holds_capital("\u{600} A"));
}

#[test]
fn a_lowercase_letter_that_folds_leaves_the_query_lowercase() {
    let state = SearchState::new(rows(&["GIT \u{3c2}"]), "\u{3c2} git", None);
    assert_eq!(matched(&state), ["GIT \u{3c2}"]);
    let symbol = SearchState::new(rows(&["SLEEP 5\u{b5}S"]), "sleep \u{b5}s", None);
    assert_eq!(matched(&symbol), ["SLEEP 5\u{b5}S"]);
}

#[test]
fn accented_and_greek_queries_find_their_commands() {
    let candidates = ["caf\u{e9} \u{b5}s", "cafe", "\u{3c3}\u{3c2}"];
    assert!(searchable(&rows(&candidates), "caf\u{e9}"));
    let accented = SearchState::new(rows(&candidates), "caf\u{e9}", None);
    assert_eq!(matched(&accented), ["caf\u{e9} \u{b5}s"]);
    let plain = SearchState::new(rows(&candidates), "cafe", None);
    assert_eq!(plain.match_count(), 2);
    assert!(searchable(&rows(&candidates), "\u{3c3}"));
    let greek = SearchState::new(rows(&candidates), "\u{3c3}", None);
    assert_eq!(matched(&greek), ["\u{3c3}\u{3c2}"]);
}

// A final sigma folds to the sigma that the word starts with, and the accent turns off the folding
// that both sides share.
#[test]
fn an_accented_word_does_not_start_with_what_a_letter_folds_to() {
    let candidates = || rows(&["\u{3c2}\u{3c3}x\u{e9}"]);
    assert!(!searchable(&candidates(), "\u{3c3}\u{e9}"));
    assert!(!searchable(&candidates(), "x \u{3c3}\u{e9}"));
    assert!(!searchable(&candidates(), "\u{3c2}\u{e9}"));
    // In another word, or not at the start of one, they do no harm.
    for query in ["x\u{e9}", "\u{3c3}x", "\u{e9} \u{3c3}", "\u{3c3} \u{e9}", "\u{3c3}x \u{e9}"] {
        assert!(searchable(&candidates(), query), "{query}");
        assert_eq!(SearchState::new(candidates(), query, None).match_count(), 1, "{query}");
    }
    assert!(searchable(&candidates(), "\u{e9}\u{3c3}"));
    assert!(matched(&SearchState::new(candidates(), "\u{e9}\u{3c3}", None)).is_empty());
    assert!(searchable(&rows(&["\u{17f}\u{e9}"]), "\u{e9} s"));
    // An escaped space belongs to the word.
    assert!(!searchable(&candidates(), "\u{3c3}\\ \u{e9}"));
    // A letter can be both, but not a word on its own.
    assert!(searchable(&rows(&["\u{1e9b}\u{1e61}x"]), "\u{1e61}"));
    assert!(!searchable(&rows(&["\u{1e9b}\u{1e61}x"]), "\u{1e61}x"));
    let state = SearchState::new(candidates(), "\u{3c3}", None);
    assert!(!state.accepts('\u{e9}'));
    assert!(state.accepts('x'));
}

// Every short query over letters that fold, accents, and syntax, against every command that it may
// be scored against.
#[test]
fn what_is_searchable_can_be_scored() {
    let alphabet =
        ['x', 's', 'S', '\u{17f}', '\u{3c3}', '\u{3c2}', '\u{e9}', '\u{1e61}', ' ', '\\'];
    let mut texts: Vec<String> = vec![String::new()];
    let mut longest = texts.clone();
    for _ in 0..3 {
        longest = longest
            .iter()
            .flat_map(|text| alphabet.iter().map(move |c| format!("{text}{c}")))
            .collect();
        texts.extend(longest.iter().cloned());
    }
    let commands: Vec<String> =
        longest.iter().step_by(7).map(|text| format!("{text}x\u{e9}\u{3c3}s")).collect();
    let mut scored = 0;
    for query in texts {
        let admitted: Vec<&str> = commands
            .iter()
            .map(String::as_str)
            .filter(|cmd| searchable(&rows(&[cmd]), &query))
            .collect();
        scored += admitted.len();
        let state = SearchState::new(rows(&admitted), &query, None);
        assert!(state.match_count() <= admitted.len());
    }
    assert!(scored > 140_000);
}

#[test]
fn the_letters_that_fold_are_those_of_the_matcher() {
    let mut folding = 0;
    for c in '\0'..=char::MAX {
        let fold = if c.is_lowercase() { to_lower_case(c) } else { c };
        assert_eq!(fold_lowercase(c), fold as u32, "{c:?}");
        assert_eq!(holds_capital(&c.to_string()), is_upper_case(c) && fold == c, "{c:?}");
        if normalize(c) != c {
            assert!(is_accented(c as u32), "{c:?}");
        }
        if fold != c {
            folding += 1;
        }
    }
    assert_eq!(folding, 108);
    assert!(!is_accented('\u{3c3}' as u32));
}

// What is left after narrowing keeps the order it had, by score and then by age.
#[test]
fn narrowing_keeps_the_order_of_the_matches() {
    let mut state = SearchState::new(
        rows_in(&[
            ("m a k e", Some("/here")),
            ("make all", Some("/elsewhere")),
            ("make", Some("/here")),
            ("make it", Some("/here")),
        ]),
        "make",
        Some("/here".to_string()),
    );
    let kept: Vec<String> = matched(&state)
        .into_iter()
        .filter(|cmd| *cmd != "make all")
        .map(str::to_string)
        .collect();
    assert_eq!(kept, ["make", "make it", "m a k e"]);
    state.toggle_dir_only();
    assert_eq!(matched(&state), kept);
}
