//! Picker state: query editing, fuzzy filtering, selection, scrolling. No terminal code, so all of
//! it can be stated and proved.
//!
//! One index convention runs through the whole module. Position 0 is the best match and the
//! newest, and it draws nearest the prompt at the bottom of the screen. Moving up the screen
//! therefore moves toward older commands and a higher index.

use nucleo_matcher::pattern::{CaseMatching, Normalization, Pattern};
use nucleo_matcher::{Config, Matcher, Utf32Str};
use vstd::prelude::*;
use vstd::utf8::encode_utf8;

use crate::db::{history_rows, HistoryRow, HistoryRowView};
use crate::order::{
    arrange, arranged, arrangement, arrangement_exists, arrangement_is_unique,
    filtering_keeps_the_order, indices, strict_order, IndexOrder,
};
use crate::text::{blank, chars_of, is_blank, optional, string_of, texts};
use crate::unicode::{grapheme_clusters, graphemes, last_cluster, last_grapheme, printable};

verus! {

// ---------------------------------------------------------------------------------------------
// Scoring
// ---------------------------------------------------------------------------------------------

/// The fuzzy matcher, opaque.
#[verifier::external_type_specification]
#[verifier::external_body]
pub struct ExMatcher(Matcher);

/// The matcher with the scratch it borrows per candidate. Held together so scoring a full history
/// does not allocate once per row. Nothing outside this module can configure the matcher, so every
/// scorer scores alike.
pub struct Scorer {
    matcher: Matcher,
    buf: Vec<char>,
}

/// How well a command matches a query, with case respected or ignored, or None when it does not.
pub uninterp spec fn fuzzy_score(
    query: Seq<char>,
    case_sensitive: bool,
    cmd: Seq<char>,
) -> Option<u32>;

/// Whether the matcher folds a character to another when case is ignored. It does so for capitals,
/// and for a few lowercase letters.
pub uninterp spec fn upper_case(c: char) -> bool;

/// The code of the character that a lowercase letter folds to when case is ignored, which is
/// another for a few: the symbols and final forms of letters, and the Cherokee small letters, which
/// fold to the capitals. That of any other character is its own.
pub open spec fn folded(c: char) -> int {
    if c == '\u{b5}' {
        0x3bc
    } else if c == '\u{17f}' {
        0x73
    } else if c == '\u{345}' {
        0x3b9
    } else if c == '\u{3c2}' {
        0x3c3
    } else if c == '\u{3d0}' {
        0x3b2
    } else if c == '\u{3d1}' {
        0x3b8
    } else if c == '\u{3d5}' {
        0x3c6
    } else if c == '\u{3d6}' {
        0x3c0
    } else if c == '\u{3f0}' {
        0x3ba
    } else if c == '\u{3f1}' {
        0x3c1
    } else if c == '\u{3f5}' {
        0x3b5
    } else if c == '\u{1c80}' {
        0x432
    } else if c == '\u{1c81}' {
        0x434
    } else if c == '\u{1c82}' {
        0x43e
    } else if c == '\u{1c83}' {
        0x441
    } else if c == '\u{1c84}' {
        0x442
    } else if c == '\u{1c85}' {
        0x442
    } else if c == '\u{1c86}' {
        0x44a
    } else if c == '\u{1c87}' {
        0x463
    } else if c == '\u{1c88}' {
        0xa64b
    } else if c == '\u{1e9b}' {
        0x1e61
    } else if c == '\u{1fbe}' {
        0x3b9
    } else if '\u{13f8}' <= c <= '\u{13fd}' {
        c as int - 0x8
    } else if '\u{ab70}' <= c <= '\u{abbf}' {
        c as int - 0x97d0
    } else {
        c as int
    }
}

/// Whether a character is a capital: one that folds to another and is not a lowercase letter.
pub open spec fn capital(c: char) -> bool {
    upper_case(c) && folded(c) == c as int
}

/// Whether a query holds a capital. Smart casing: an all-lowercase query ignores case, and one
/// capital makes the whole query case sensitive. What the matcher sees of a visible character is
/// its first char.
pub open spec fn has_capital(query: Seq<char>) -> bool {
    exists|k: int|
        0 <= k < grapheme_clusters(query).len() && capital(
            (#[trigger] grapheme_clusters(query)[k])[0],
        )
}

/// How many matched characters a score can count before it leaves the 16 bits that the matcher adds
/// up the score of a word in.
pub const LONG_WORD: usize = 2520;

/// How long a query can be before the scores of its words together could leave 32 bits.
pub const LONG_QUERY: usize = 131071;

/// Whether the matcher ends a word at this space. One after a backslash belongs to the word.
pub open spec fn splits(query: Seq<char>, i: int) -> bool {
    query[i] == ' ' && (i == 0 || query[i - 1] != '\\')
}

/// How many characters the matcher makes of one. It may double a backslash.
pub open spec fn weight(c: char) -> nat {
    if c == '\\' {
        2
    } else {
        1
    }
}

/// How many characters the matcher makes of the word at the end of a query.
pub open spec fn last_word(query: Seq<char>) -> nat
    decreases query.len(),
{
    if query.len() == 0 || splits(query, query.len() - 1) {
        0
    } else {
        weight(query.last()) + last_word(query.drop_last())
    }
}

/// Whether every word of a query is short enough for the matcher's score arithmetic.
pub open spec fn short_words(query: Seq<char>) -> bool {
    forall|n: int| 0 <= n <= query.len() ==> last_word(#[trigger] query.take(n)) <= LONG_WORD
}

/// Whether a code lies in the ranges of Latin letters that the matcher may strip of an accent. A
/// word of the query that holds such a letter is matched with its accents.
pub open spec fn accented(code: int) -> bool {
    ||| 0xc0 <= code <= 0x2ae
    ||| 0x363 <= code <= 0x36f
    ||| 0x1d00 <= code <= 0x1d65
    ||| 0x1e01 <= code <= 0x1ef9
    ||| 0x2071 <= code <= 0x209c
    ||| code == 0x2184
}

/// Whether a word of the query starts at `start` and holds the character at `i`.
pub open spec fn in_word(query: Seq<char>, start: int, i: int) -> bool {
    &&& 0 <= start <= i < query.len()
    &&& start == 0 || splits(query, start - 1)
    &&& forall|k: int| start <= k <= i ==> !#[trigger] splits(query, k)
}

/// Whether a word of at least two characters, an accented letter among them, starts at `start`.
pub open spec fn accented_word(query: Seq<char>, start: int) -> bool {
    &&& in_word(query, start, start + 1)
    &&& exists|i: int| #[trigger] in_word(query, start, i) && accented(folded(query[i]))
}

/// Whether a lowercase letter of a command folds to what a character of the query folds to.
pub open spec fn folds_alike(c: char, q: char) -> bool {
    folded(c) != c as int && folded(c) == folded(q)
}

/// Whether a command holds no lowercase letter that folds to what an accented word of the query
/// starts with. The matcher folds such a letter where it looks for the start of the word, but not
/// where it scores the word with its accents.
pub open spec fn folds_apart(query: Seq<char>, cmd: Seq<char>) -> bool {
    forall|start: int, i: int| #[trigger]
        accented_word(query, start) && 0 <= i < cmd.len() ==> !folds_alike(
            #[trigger] cmd[i],
            query[start],
        )
}

/// Whether the matcher can score a command against a query: the command is within the matcher's
/// documented limit, the command or every word of the query is short enough for its score
/// arithmetic, and no accented word starts with a letter that it folds in two ways.
pub open spec fn scorable(query: Seq<char>, cmd: Seq<char>) -> bool {
    let bytes = encode_utf8(cmd).len();
    &&& bytes <= u32::MAX
    &&& query.len() <= LONG_QUERY
    &&& bytes <= LONG_WORD || short_words(query)
    &&& folds_apart(query, cmd)
}

/// A query that can be scored still can be with characters deleted from its end.
pub proof fn a_shorter_query_is_scorable(query: Seq<char>, n: int, cmd: Seq<char>)
    requires
        0 <= n <= query.len(),
        scorable(query, cmd),
    ensures
        scorable(query.take(n), cmd),
{
    if short_words(query) {
        assert forall|m: int| 0 <= m <= n implies last_word(#[trigger] query.take(n).take(m))
            <= LONG_WORD by {
            assert(query.take(n).take(m) =~= query.take(m));
        }
    }
    let shorter = query.take(n);
    assert forall|start: int, i: int| #[trigger]
        accented_word(shorter, start) && 0 <= i < cmd.len() implies !folds_alike(
        #[trigger] cmd[i],
        shorter[start],
    ) by {
        let j = choose|j: int| #[trigger]
            in_word(shorter, start, j) && accented(folded(shorter[j]));
        lemma_longer_word(query, n, start, start + 1);
        lemma_longer_word(query, n, start, j);
        assert(accented_word(query, start));
    }
}

proof fn lemma_longer_word(query: Seq<char>, n: int, start: int, i: int)
    requires
        0 <= n <= query.len(),
        in_word(query.take(n), start, i),
    ensures
        in_word(query, start, i),
{
    let shorter = query.take(n);
    assert forall|k: int| start <= k <= i implies !#[trigger] splits(query, k) by {
        assert(!splits(shorter, k));
    }
}

/// `Matcher::new` with `Config::DEFAULT`.
#[verifier::external_body]
fn new_matcher() -> (matcher: Matcher) {
    Matcher::new(Config::DEFAULT)
}

/// `nucleo_matcher::chars::is_upper_case`, which is whether the character is in the matcher's table
/// of foldings. The answer depends on the character alone, and among the ASCII characters it is yes
/// for the letters from A to Z.
#[verifier::external_body]
fn is_upper_case(c: char) -> (yes: bool)
    ensures
        yes == upper_case(c),
        c <= '\u{7f}' ==> yes == ('A' <= c <= 'Z'),
{
    nucleo_matcher::chars::is_upper_case(c)
}

/// `Pattern::score`, for the pattern that `Pattern::parse` makes of the query with the given case
/// matching, and the command as `Utf32Str::new` presents it.
///
/// The matcher's settings for case and accents are set anew for each word of the pattern, and its
/// scratch memory carries nothing from one command to the next, so the score depends on the query,
/// the case matching, and the command alone. What it is for a given query and command is left open.
#[verifier::external_body]
fn score(scorer: &mut Scorer, query: &str, case_sensitive: bool, cmd: &str) -> (points: Option<u32>)
    requires
        scorable(query@, cmd@),
        case_sensitive || !has_capital(query@),
    ensures
        points == fuzzy_score(query@, case_sensitive, cmd@),
{
    let case = match case_sensitive {
        true => CaseMatching::Respect,
        false => CaseMatching::Ignore,
    };
    let pattern = Pattern::parse(query, case, Normalization::Smart);
    pattern.score(Utf32Str::new(cmd, &mut scorer.buf), &mut scorer.matcher)
}

/// The code of the character that a lowercase letter folds to, or that of any other character.
pub fn fold_lowercase(c: char) -> (code: u32)
    ensures
        code == folded(c),
{
    match c {
        '\u{b5}' => 0x3bc,
        '\u{17f}' => 0x73,
        '\u{345}' => 0x3b9,
        '\u{3c2}' => 0x3c3,
        '\u{3d0}' => 0x3b2,
        '\u{3d1}' => 0x3b8,
        '\u{3d5}' => 0x3c6,
        '\u{3d6}' => 0x3c0,
        '\u{3f0}' => 0x3ba,
        '\u{3f1}' => 0x3c1,
        '\u{3f5}' => 0x3b5,
        '\u{1c80}' => 0x432,
        '\u{1c81}' => 0x434,
        '\u{1c82}' => 0x43e,
        '\u{1c83}' => 0x441,
        '\u{1c84}' => 0x442,
        '\u{1c85}' => 0x442,
        '\u{1c86}' => 0x44a,
        '\u{1c87}' => 0x463,
        '\u{1c88}' => 0xa64b,
        '\u{1e9b}' => 0x1e61,
        '\u{1fbe}' => 0x3b9,
        _ => {
            if '\u{13f8}' <= c && c <= '\u{13fd}' {
                c as u32 - 0x8
            } else if '\u{ab70}' <= c && c <= '\u{abbf}' {
                c as u32 - 0x97d0
            } else {
                c as u32
            }
        },
    }
}

/// Whether a query holds a capital, and with it is case sensitive.
pub fn holds_capital(query: &str) -> (yes: bool)
    ensures
        yes == has_capital(query@),
        printable(query@) ==> yes == exists|i: int|
            0 <= i < query@.len() && 'A' <= #[trigger] query@[i] <= 'Z',
{
    let clusters = graphemes(query);
    let ghost split = grapheme_clusters(query@);
    let mut k: usize = 0;
    while k < clusters.len()
        invariant
            k <= clusters@.len(),
            split == texts(clusters@),
            split == grapheme_clusters(query@),
            forall|j: int| 0 <= j < clusters@.len() ==> (#[trigger] clusters@[j])@.len() > 0,
            printable(query@) ==> split == query@.map_values(|c: char| seq![c]),
            forall|j: int| 0 <= j < k ==> !capital((#[trigger] split[j])[0]),
            printable(query@) ==> forall|j: int|
                0 <= j < k ==> !('A' <= #[trigger] query@[j] <= 'Z'),
        decreases clusters@.len() - k,
    {
        let chars = chars_of(clusters[k].as_str());
        let first = chars[0];
        assert(split[k as int][0] == first);
        assert(printable(query@) ==> first == query@[k as int] && first <= '~');
        if is_upper_case(first) && fold_lowercase(first) == first as u32 {
            assert(capital(split[k as int][0]));
            return true;
        }
        k += 1;
    }
    false
}

// ---------------------------------------------------------------------------------------------
// Ranking
// ---------------------------------------------------------------------------------------------

/// Whether candidate `i` ranks before candidate `j`: the better score first, and between equal
/// scores the lower index, which is the newer command.
pub open spec fn ranks_before(scores: Seq<Option<u32>>, i: int, j: int) -> bool {
    scores[i]->0 > scores[j]->0 || (scores[i]->0 == scores[j]->0 && i < j)
}

/// Whether candidate `i` matches.
pub open spec fn matching(scores: Seq<Option<u32>>, i: int) -> bool {
    0 <= i < scores.len() && scores[i] is Some
}

/// The candidates that match, best first.
pub open spec fn ranking(scores: Seq<Option<u32>>) -> Seq<int> {
    arrangement(|i: int| matching(scores, i), |i: int, j: int| ranks_before(scores, i, j))
}

struct Ranking<'a> {
    scores: &'a Vec<Option<u32>>,
}

impl<'a> IndexOrder for Ranking<'a> {
    closed spec fn member(&self, i: int) -> bool {
        matching(self.scores@, i)
    }

    closed spec fn before(&self, i: int, j: int) -> bool {
        ranks_before(self.scores@, i, j)
    }

    fn bound(&self) -> (n: usize) {
        self.scores.len()
    }

    fn takes_part(&self, i: usize) -> (yes: bool) {
        i < self.scores.len() && self.scores[i].is_some()
    }

    proof fn strict(&self) {
    }

    fn comes_before(&self, i: usize, j: usize) -> (yes: bool) {
        match (self.scores[i], self.scores[j]) {
            (Some(a), Some(b)) => a > b || (a == b && i < j),
            _ => false,
        }
    }
}

/// Rank the candidates that have a score, best first. Candidates come newest first, so the index
/// tiebreak prefers newer commands on equal scores.
pub fn rank(scores: &Vec<Option<u32>>) -> (order: Vec<usize>)
    ensures
        indices(order@) == ranking(scores@),
{
    let by = Ranking { scores };
    proof {
        assert((|i: int| by.member(i)) =~= (|i: int| matching(scores@, i)));
        assert((|i: int, j: int| by.before(i, j)) =~= (|i: int, j: int|
            ranks_before(scores@, i, j)));
    }
    arrange(&by)
}

/// A ranking holds exactly the candidates that match. Scores never rise along it, and where two
/// are equal the newer command stands first.
pub proof fn a_ranking_is_best_first(scores: Seq<Option<u32>>)
    ensures
        forall|k: int|
            0 <= k < ranking(scores).len() ==> matching(scores, #[trigger] ranking(scores)[k]),
        forall|i: int| #[trigger] matching(scores, i) ==> ranking(scores).contains(i),
        forall|a: int, b: int|
            0 <= a < b < ranking(scores).len() ==> ranks_before(
                scores,
                #[trigger] ranking(scores)[a],
                #[trigger] ranking(scores)[b],
            ),
{
    let member = |i: int| matching(scores, i);
    let before = |i: int, j: int| ranks_before(scores, i, j);
    assert(strict_order(member, before));
    arrangement_exists(scores.len(), member, before);
    let order = ranking(scores);
    assert(arranged(order, member, before));
    assert forall|k: int| 0 <= k < order.len() implies matching(scores, #[trigger] order[k]) by {
        assert(member(order[k]));
    }
    assert forall|i: int| #[trigger] matching(scores, i) implies order.contains(i) by {
        assert(member(i));
    }
    assert forall|a: int, b: int| 0 <= a < b < order.len() implies ranks_before(
        scores,
        #[trigger] order[a],
        #[trigger] order[b],
    ) by {
        assert(before(order[a], order[b]));
    }
}

// ---------------------------------------------------------------------------------------------
// What the picker holds
// ---------------------------------------------------------------------------------------------

/// What a [`SearchState`] holds.
#[verifier::ext_equal]
pub struct Search {
    /// Every candidate, newest first.
    pub rows: Seq<HistoryRowView>,
    pub query: Seq<char>,
    /// Position in the matches.
    pub selected: int,
    /// First visible position in the matches.
    pub offset: int,
    /// Where the picker was opened.
    pub cwd: Option<Seq<char>>,
    /// Whether only rows whose last run happened in `cwd` match.
    pub dir_only: bool,
}

impl Search {
    /// Whether a row is in scope. One with no recorded directory never is in dir-only mode.
    pub open spec fn in_scope(self, row: HistoryRowView) -> bool {
        !self.dir_only || (row.cwd is Some && row.cwd == self.cwd)
    }

    /// The score of row `i`, if it matches. The scope narrows the candidates before the query
    /// ranks them, and an empty query ranks by nothing, which leaves plain recency order.
    pub open spec fn score(self, i: int) -> Option<u32> {
        if !self.in_scope(self.rows[i]) {
            None
        } else if self.query.len() == 0 {
            Some(0u32)
        } else {
            fuzzy_score(self.query, has_capital(self.query), self.rows[i].cmd)
        }
    }

    /// The scores of all rows.
    pub open spec fn scores(self) -> Seq<Option<u32>> {
        Seq::new(self.rows.len(), |i: int| self.score(i))
    }

    /// The rows that match, best first, as positions in the candidates.
    pub open spec fn matches(self) -> Seq<int> {
        ranking(self.scores())
    }

    /// The highlighted command, or None when nothing matches.
    pub open spec fn selection(self) -> Option<Seq<char>> {
        if 0 <= self.selected < self.matches().len() {
            Some(self.rows[self.matches()[self.selected]].cmd)
        } else {
            None
        }
    }

    /// The selection is a match, or at the top when there is none; the window does not start past
    /// it; and dir-only mode has a directory to compare against.
    pub open spec fn consistent(self) -> bool {
        &&& 0 <= self.offset <= self.selected
        &&& self.selected == 0 || self.selected < self.matches().len()
        &&& self.dir_only ==> self.cwd is Some
    }

    /// Whether a query could be typed without leaving what the matcher can score.
    pub open spec fn admits(self, query: Seq<char>) -> bool {
        forall|i: int| 0 <= i < self.rows.len() ==> scorable(query, (#[trigger] self.rows[i]).cmd)
    }

    /// The selection returned to the top, which is what any new filtering does.
    pub open spec fn at_top(self) -> Search {
        Search { selected: 0, offset: 0, ..self }
    }

    /// Another query, filtered anew.
    pub open spec fn with_query(self, query: Seq<char>) -> Search {
        Search { query, ..self }.at_top()
    }

    /// The scope switched, unless the directory is unknown.
    pub open spec fn toggled(self) -> Search {
        if self.cwd is None {
            self
        } else {
            Search { dir_only: !self.dir_only, ..self }.at_top()
        }
    }

    /// The window moved just far enough to hold the selection.
    pub open spec fn shown(self, visible: int) -> Search {
        if visible == 0 || self.selected < self.offset {
            Search { offset: self.selected, ..self }
        } else if self.selected >= self.offset + visible {
            Search { offset: self.selected + 1 - visible, ..self }
        } else {
            self
        }
    }

    /// One match further up the screen, if there is one.
    pub open spec fn up(self, visible: int) -> Search {
        let selected = if self.selected + 1 < self.matches().len() {
            self.selected + 1
        } else {
            self.selected
        };
        Search { selected, ..self }.shown(visible)
    }

    /// One match further down the screen, if there is one.
    pub open spec fn down(self, visible: int) -> Search {
        let selected = if self.selected > 0 {
            self.selected - 1
        } else {
            0
        };
        Search { selected, ..self }.shown(visible)
    }

    /// How many rows a window of `visible` rows shows.
    pub open spec fn shown_count(self, visible: int) -> int {
        let left = self.matches().len() - self.offset;
        if left <= 0 {
            0
        } else if left < visible {
            left
        } else {
            visible
        }
    }

    /// The rows in the window, best match first, each with whether it is selected.
    pub open spec fn window(self, visible: int) -> Seq<(bool, HistoryRowView)> {
        Seq::new(
            self.shown_count(visible) as nat,
            |k: int|
                (
                    self.offset + k == self.selected,
                    self.rows[self.matches()[self.offset + k]],
                ),
        )
    }
}

// ---------------------------------------------------------------------------------------------
// Editing
// ---------------------------------------------------------------------------------------------

/// A text without its last visible character, which can be several chars: an accented letter or
/// an emoji with modifiers goes in a single press.
pub open spec fn shortened(text: Seq<char>, last: Option<Seq<char>>) -> Seq<char> {
    match last {
        Some(cluster) => if cluster.len() <= text.len() {
            text.take(text.len() - cluster.len())
        } else {
            text
        },
        None => text,
    }
}

/// A text without the visible characters at its end that are whitespace, or without those that
/// are not. Whitespace is judged per visible character, so an ideographic space separates words
/// the same way an ascii one does.
pub open spec fn without_run(text: Seq<char>, whitespace: bool) -> Seq<char>
    decreases text.len(),
{
    match last_cluster(text) {
        Some(cluster) => if blank(cluster) == whitespace && 0 < cluster.len() <= text.len() {
            without_run(shortened(text, Some(cluster)), whitespace)
        } else {
            text
        },
        None => text,
    }
}

/// A text without its trailing whitespace and the word before it.
pub open spec fn without_word(text: Seq<char>) -> Seq<char> {
    without_run(without_run(text, true), false)
}

/// A text without the characters at its end that are whitespace, or without those that are not.
/// What [`without_run`] comes to where every visible character is one char.
pub open spec fn without_chars(text: Seq<char>, whitespace: bool) -> Seq<char>
    decreases text.len(),
{
    if text.len() > 0 && crate::text::whitespace(text.last()) == whitespace {
        without_chars(text.drop_last(), whitespace)
    } else {
        text
    }
}

/// A text without the cluster at its end.
pub fn drop_last_cluster(text: &str, last: &Option<String>) -> (rest: String)
    ensures
        rest@ == shortened(text@, optional(*last)),
{
    let chars = chars_of(text);
    match last {
        Some(cluster) => {
            let count: usize = chars_of(cluster.as_str()).len();
            if count <= chars.len() {
                let kept: usize = chars.len() - count;
                let rest = vstd::slice::slice_subrange(chars.as_slice(), 0, kept);
                assert(rest@ =~= text@.take(kept as int));
                string_of(rest)
            } else {
                text.to_owned()
            }
        },
        None => text.to_owned(),
    }
}

/// Delete the visible characters at the end that are whitespace, or those that are not.
fn drop_run(text: String, whitespace: bool) -> (rest: String)
    ensures
        rest@ == without_run(text@, whitespace),
        rest@.len() <= text@.len(),
        printable(text@) ==> printable(rest@) && rest@ == without_chars(text@, whitespace),
{
    let mut rest = text;
    loop
        invariant
            without_run(rest@, whitespace) == without_run(text@, whitespace),
            rest@.len() <= text@.len(),
            printable(text@) ==> printable(rest@) && without_chars(rest@, whitespace)
                == without_chars(text@, whitespace),
        ensures
            rest@ == without_run(text@, whitespace),
            rest@.len() <= text@.len(),
            printable(text@) ==> printable(rest@) && rest@ == without_chars(text@, whitespace),
        decreases rest@.len(),
    {
        let ghost before = rest@;
        let last = last_grapheme(rest.as_str());
        let goes_on = match &last {
            Some(cluster) => {
                let chars = chars_of(cluster.as_str());
                is_blank(chars.as_slice()) == whitespace
            },
            None => false,
        };
        proof {
            if printable(text@) && last is Some {
                lemma_last_char(before, last->0@);
            }
        }
        if !goes_on {
            break;
        }
        rest = drop_last_cluster(rest.as_str(), &last);
        assert(printable(text@) ==> rest@ =~= before.drop_last());
    }
    rest
}

proof fn lemma_last_char(text: Seq<char>, cluster: Seq<char>)
    requires
        cluster.len() == 1,
        text.len() > 0,
        text.skip(text.len() - 1) == cluster,
    ensures
        blank(cluster) == crate::text::whitespace(text.last()),
{
    assert(cluster[0] == text.last());
}

/// Deleting characters from the end leaves a start of the text.
pub proof fn a_run_is_deleted_from_the_end(text: Seq<char>, whitespace: bool)
    ensures
        without_run(text, whitespace).len() <= text.len(),
        without_run(text, whitespace) == text.take(without_run(text, whitespace).len() as int),
    decreases text.len(),
{
    match last_cluster(text) {
        Some(cluster) => {
            if blank(cluster) == whitespace && 0 < cluster.len() <= text.len() {
                let rest = shortened(text, Some(cluster));
                a_run_is_deleted_from_the_end(rest, whitespace);
                let kept = without_run(rest, whitespace).len() as int;
                assert(rest.take(kept) =~= text.take(kept));
            } else {
                assert(text.take(text.len() as int) =~= text);
            }
        },
        None => {
            assert(text.take(text.len() as int) =~= text);
        },
    }
}

/// Deleting a word leaves a start of the text.
pub proof fn a_word_is_deleted_from_the_end(text: Seq<char>)
    ensures
        without_word(text).len() <= text.len(),
        without_word(text) == text.take(without_word(text).len() as int),
{
    let trimmed = without_run(text, true);
    a_run_is_deleted_from_the_end(text, true);
    a_run_is_deleted_from_the_end(trimmed, false);
    assert(trimmed.take(without_word(text).len() as int) =~= text.take(
        without_word(text).len() as int,
    ));
}

// ---------------------------------------------------------------------------------------------
// The picker
// ---------------------------------------------------------------------------------------------

/// The picker: its candidates, the query, and where the selection is.
pub struct SearchState {
    /// Every candidate, newest first, as [`crate::db::Db::recent`] returned them. Never reordered;
    /// ranking moves indices in `matches` instead.
    rows: Vec<HistoryRow>,
    query: String,
    /// Indices into `rows`, best match first.
    matches: Vec<usize>,
    /// Index into `matches`, not into `rows`.
    selected: usize,
    /// First visible position in `matches`.
    offset: usize,
    scorer: Scorer,
    /// Where the picker was opened. None when the directory is unknown, which also disables the
    /// dir-only toggle.
    cwd: Option<String>,
    /// When set, only rows whose last run happened in `cwd` match.
    dir_only: bool,
}

impl View for SearchState {
    type V = Search;

    closed spec fn view(&self) -> Search {
        Search {
            rows: history_rows(self.rows@),
            query: self.query@,
            selected: self.selected as int,
            offset: self.offset as int,
            cwd: optional(self.cwd),
            dir_only: self.dir_only,
        }
    }
}

/// Whether every word of a query is short enough for the matcher's score arithmetic.
fn has_short_words(query: &Vec<char>) -> (yes: bool)
    ensures
        yes == short_words(query@),
{
    let mut length: usize = 0;
    let mut i: usize = 0;
    assert(query@.take(0) =~= Seq::empty());
    while i < query.len()
        invariant
            i <= query@.len(),
            length == last_word(query@.take(i as int)),
            forall|n: int| 0 <= n <= i ==> last_word(#[trigger] query@.take(n)) <= LONG_WORD,
        decreases query@.len() - i,
    {
        let c = query[i];
        let ghost longer = query@.take(i + 1);
        proof {
            assert(longer.drop_last() =~= query@.take(i as int));
            assert(longer.last() == c);
        }
        if is_split(query, i) {
            length = 0;
        } else if c == '\\' {
            length += 2;
        } else {
            length += 1;
        }
        if length > LONG_WORD {
            assert(last_word(query@.take(i + 1)) > LONG_WORD);
            return false;
        }
        i += 1;
    }
    true
}

/// Whether a code lies in the ranges of Latin letters that the matcher may strip of an accent.
pub fn is_accented(code: u32) -> (yes: bool)
    ensures
        yes == accented(code as int),
{
    (0xc0 <= code && code <= 0x2ae) || (0x363 <= code && code <= 0x36f) || (0x1d00 <= code && code
        <= 0x1d65) || (0x1e01 <= code && code <= 0x1ef9) || (0x2071 <= code && code <= 0x209c)
        || code == 0x2184
}

/// Whether the matcher ends a word at this space.
fn is_split(query: &Vec<char>, i: usize) -> (yes: bool)
    requires
        i < query@.len(),
    ensures
        yes == splits(query@, i as int),
{
    query[i] == ' ' && (i == 0 || query[i - 1] != '\\')
}

/// Whether a word of at least two characters, an accented letter among them, starts here.
fn is_accented_word(query: &Vec<char>, start: usize) -> (yes: bool)
    requires
        start < query@.len(),
    ensures
        yes == accented_word(query@, start as int),
{
    if start > 0 && !is_split(query, start - 1) {
        return false;
    }
    if is_split(query, start) || query.len() - start < 2 || is_split(query, start + 1) {
        assert(splits(query@, start as int) || start + 1 >= query@.len() || splits(
            query@,
            start + 1,
        ));
        return false;
    }
    assert(in_word(query@, start as int, start + 1));
    let mut i: usize = start;
    while i < query.len()
        invariant
            start <= i <= query@.len(),
            in_word(query@, start as int, start + 1),
            forall|k: int| start <= k < i ==> !#[trigger] splits(query@, k),
            forall|k: int| start <= k < i ==> !accented(folded(#[trigger] query@[k])),
        decreases query@.len() - i,
    {
        if is_split(query, i) {
            assert forall|k: int| #[trigger] in_word(query@, start as int, k) implies k < i by {
                if k >= i {
                    assert(splits(query@, i as int));
                }
            }
            return false;
        }
        if is_accented(fold_lowercase(query[i])) {
            assert(in_word(query@, start as int, i as int));
            return true;
        }
        i += 1;
    }
    false
}

/// Where the words of at least two characters start that hold an accented letter.
fn accented_words(query: &Vec<char>) -> (starts: Vec<usize>)
    ensures
        forall|k: int|
            0 <= k < starts@.len() ==> accented_word(query@, #[trigger] starts@[k] as int),
        forall|start: int| #[trigger]
            accented_word(query@, start) ==> exists|k: int|
                0 <= k < starts@.len() && #[trigger] starts@[k] == start,
{
    let mut starts: Vec<usize> = Vec::new();
    let mut i: usize = 0;
    while i < query.len()
        invariant
            i <= query@.len(),
            forall|k: int|
                0 <= k < starts@.len() ==> accented_word(query@, #[trigger] starts@[k] as int),
            forall|start: int| #[trigger]
                accented_word(query@, start) && start < i ==> exists|k: int|
                    0 <= k < starts@.len() && #[trigger] starts@[k] == start,
        decreases query@.len() - i,
    {
        let ghost before = starts@;
        if is_accented_word(query, i) {
            starts.push(i);
        }
        proof {
            assert forall|start: int| #[trigger]
                accented_word(query@, start) && start < i + 1 implies exists|k: int|
                0 <= k < starts@.len() && #[trigger] starts@[k] == start by {
                if start < i {
                    let k = choose|k: int| 0 <= k < before.len() && #[trigger] before[k] == start;
                    assert(starts@[k] == start);
                } else {
                    assert(starts@[before.len() as int] == start);
                }
            }
        }
        i += 1;
    }
    starts
}

/// Whether a command holds no lowercase letter that folds to what an accented word starts with.
fn fold_apart(query: &Vec<char>, starts: &Vec<usize>, cmd: &str) -> (yes: bool)
    requires
        forall|k: int|
            0 <= k < starts@.len() ==> accented_word(query@, #[trigger] starts@[k] as int),
        forall|start: int| #[trigger]
            accented_word(query@, start) ==> exists|k: int|
                0 <= k < starts@.len() && #[trigger] starts@[k] == start,
    ensures
        yes == folds_apart(query@, cmd@),
{
    if starts.len() == 0 {
        return true;
    }
    let chars = chars_of(cmd);
    let mut i: usize = 0;
    while i < chars.len()
        invariant
            chars@ == cmd@,
            i <= chars@.len(),
            forall|k: int|
                0 <= k < starts@.len() ==> accented_word(query@, #[trigger] starts@[k] as int),
            forall|j: int, k: int|
                0 <= j < i && 0 <= k < starts@.len() ==> !folds_alike(
                    #[trigger] cmd@[j],
                    query@[#[trigger] starts@[k] as int],
                ),
        decreases chars@.len() - i,
    {
        let c = chars[i];
        let code: u32 = fold_lowercase(c);
        if code != c as u32 {
            let mut k: usize = 0;
            while k < starts.len()
                invariant
                    chars@ == cmd@,
                    i < chars@.len(),
                    c == cmd@[i as int],
                    code == folded(c),
                    code != c as u32,
                    k <= starts@.len(),
                    forall|m: int|
                        0 <= m < starts@.len() ==> accented_word(
                            query@,
                            #[trigger] starts@[m] as int,
                        ),
                    forall|m: int|
                        0 <= m < k ==> !folds_alike(c, query@[#[trigger] starts@[m] as int]),
                decreases starts@.len() - k,
            {
                let start: usize = starts[k];
                assert(accented_word(query@, start as int));
                assert(in_word(query@, start as int, start + 1));
                if fold_lowercase(query[start]) == code {
                    assert(folds_alike(cmd@[i as int], query@[start as int]));
                    return false;
                }
                k += 1;
            }
        }
        i += 1;
    }
    proof {
        assert forall|start: int, j: int| #[trigger]
            accented_word(query@, start) && 0 <= j < cmd@.len() implies !folds_alike(
            #[trigger] cmd@[j],
            query@[start],
        ) by {
            let k = choose|k: int| 0 <= k < starts@.len() && #[trigger] starts@[k] == start;
            assert(query@[starts@[k] as int] == query@[start]);
        }
    }
    true
}

/// Whether the matcher can score every row against a query.
pub fn searchable(rows: &Vec<HistoryRow>, query: &str) -> (yes: bool)
    ensures
        yes == forall|i: int|
            0 <= i < rows@.len() ==> scorable(query@, (#[trigger] history_rows(rows@)[i]).cmd),
{
    let chars = chars_of(query);
    let short = has_short_words(&chars);
    let starts = accented_words(&chars);
    let mut i: usize = 0;
    while i < rows.len()
        invariant
            i <= rows@.len(),
            chars@ == query@,
            short == short_words(query@),
            forall|k: int|
                0 <= k < starts@.len() ==> accented_word(query@, #[trigger] starts@[k] as int),
            forall|start: int| #[trigger]
                accented_word(query@, start) ==> exists|k: int|
                    0 <= k < starts@.len() && #[trigger] starts@[k] == start,
            forall|k: int|
                0 <= k < i ==> scorable(query@, (#[trigger] history_rows(rows@)[k]).cmd),
        decreases rows@.len() - i,
    {
        let bytes: usize = rows[i].cmd.as_str().as_bytes().len();
        let fits = bytes <= 4294967295 && chars.len() <= LONG_QUERY && (bytes <= LONG_WORD
            || short) && fold_apart(&chars, &starts, rows[i].cmd.as_str());
        assert(fits == scorable(query@, history_rows(rows@)[i as int].cmd));
        if !fits {
            return false;
        }
        i += 1;
    }
    true
}

proof fn lemma_deleting_keeps_admitted(search: Search, n: int)
    requires
        0 <= n <= search.query.len(),
        search.admits(search.query),
    ensures
        search.admits(search.query.take(n)),
{
    assert forall|i: int| 0 <= i < search.rows.len() implies scorable(
        search.query.take(n),
        (#[trigger] search.rows[i]).cmd,
    ) by {
        a_shorter_query_is_scorable(search.query, n, search.rows[i].cmd);
    }
}

impl SearchState {
    /// The matches are the ranking of the candidates for the query and the scope, the selection is
    /// one of them, and every candidate can be scored.
    pub closed spec fn well_formed(&self) -> bool {
        &&& indices(self.matches@) == self@.matches()
        &&& self@.consistent()
        &&& self@.admits(self@.query)
    }

    /// Whatever keys were pressed, the selection is one of the matches, the window does not start
    /// past it, and every candidate can be scored against the query.
    pub proof fn is_consistent(&self)
        requires
            self.well_formed(),
        ensures
            self@.consistent(),
            self@.admits(self@.query),
    {
    }

    /// A picker over the given rows, which must be newest first: the ranking tiebreak reads that
    /// order.
    pub fn new(rows: Vec<HistoryRow>, initial_query: &str, cwd: Option<String>) -> (state: Self)
        requires
            forall|i: int|
                0 <= i < rows@.len() ==> scorable(
                    initial_query@,
                    (#[trigger] history_rows(rows@)[i]).cmd,
                ),
        ensures
            state.well_formed(),
            state@ == (Search {
                rows: history_rows(rows@),
                query: initial_query@,
                selected: 0,
                offset: 0,
                cwd: optional(cwd),
                dir_only: false,
            }),
    {
        let mut state = SearchState {
            rows,
            query: initial_query.to_owned(),
            matches: Vec::new(),
            selected: 0,
            offset: 0,
            scorer: Scorer { matcher: new_matcher(), buf: Vec::new() },
            cwd,
            dir_only: false,
        };
        state.refilter();
        state
    }

    /// Narrow matches to the current directory, or widen back out. Does nothing when the directory
    /// is unknown, so dir-only always has a directory to compare against.
    pub fn toggle_dir_only(&mut self)
        requires
            old(self).well_formed(),
        ensures
            final(self).well_formed(),
            final(self)@ == old(self)@.toggled(),
    {
        if self.cwd.is_none() {
            return;
        }
        self.dir_only = !self.dir_only;
        self.refilter();
    }

    /// Whether the search is narrowed to the current directory.
    pub fn dir_only(&self) -> (yes: bool)
        ensures
            yes == self@.dir_only,
    {
        self.dir_only
    }

    /// The query as typed so far.
    pub fn query(&self) -> (text: &str)
        ensures
            text@ == self@.query,
    {
        self.query.as_str()
    }

    /// How many rows match.
    pub fn match_count(&self) -> (count: usize)
        requires
            self.well_formed(),
        ensures
            count == self@.matches().len(),
    {
        proof {
            assert(indices(self.matches@).len() == self.matches@.len());
        }
        self.matches.len()
    }

    /// The highlighted command, or None when nothing matches.
    pub fn selection(&self) -> (cmd: Option<&str>)
        requires
            self.well_formed(),
        ensures
            match cmd {
                Some(text) => self@.selection() == Some(text@),
                None => self@.selection() is None,
            },
    {
        assert(indices(self.matches@).len() == self.matches@.len());
        if self.selected < self.matches.len() {
            proof {
                a_ranking_is_best_first(self@.scores());
                assert(indices(self.matches@)[self.selected as int] == self.matches@[
                    self.selected as int
                ]);
                assert(matching(self@.scores(), self@.matches()[self.selected as int]));
            }
            let row = &self.rows[self.matches[self.selected]];
            Some(row.cmd.as_str())
        } else {
            None
        }
    }

    /// Whether a character can be typed without leaving what the matcher can score.
    pub fn accepts(&self, c: char) -> (yes: bool)
        ensures
            yes == self@.admits(self@.query.push(c)),
    {
        let mut query = self.query.clone();
        query.push(c);
        searchable(&self.rows, query.as_str())
    }

    /// Type a character.
    pub fn push_char(&mut self, c: char)
        requires
            old(self).well_formed(),
            old(self)@.admits(old(self)@.query.push(c)),
        ensures
            final(self).well_formed(),
            final(self)@ == old(self)@.with_query(old(self)@.query.push(c)),
    {
        self.query.push(c);
        self.refilter();
    }

    /// Delete one visible character. In printable ASCII that is one char.
    pub fn backspace(&mut self)
        requires
            old(self).well_formed(),
        ensures
            final(self).well_formed(),
            final(self)@ == old(self)@.with_query(
                shortened(old(self)@.query, last_cluster(old(self)@.query)),
            ),
            final(self)@.query.len() == 0 || final(self)@.query.len() < old(self)@.query.len(),
            printable(old(self)@.query) && old(self)@.query.len() > 0 ==> final(self)@.query
                == old(self)@.query.drop_last(),
    {
        let last = last_grapheme(self.query.as_str());
        self.query = drop_last_cluster(self.query.as_str(), &last);
        proof {
            let before = old(self)@.query;
            assert(printable(before) && before.len() > 0 ==> self@.query =~= before.drop_last());
            assert(self@.query =~= before.take(self@.query.len() as int));
            lemma_deleting_keeps_admitted(old(self)@, self@.query.len() as int);
        }
        self.refilter();
    }

    /// Delete everything typed.
    pub fn clear_line(&mut self)
        requires
            old(self).well_formed(),
        ensures
            final(self).well_formed(),
            final(self)@ == old(self)@.with_query(Seq::empty()),
    {
        self.query = String::new();
        proof {
            assert(self@.query =~= old(self)@.query.take(0));
            lemma_deleting_keeps_admitted(old(self)@, 0);
        }
        self.refilter();
    }

    /// Delete trailing whitespace, then the word before it. In printable ASCII both are judged char
    /// by char.
    pub fn delete_word(&mut self)
        requires
            old(self).well_formed(),
        ensures
            final(self).well_formed(),
            final(self)@ == old(self)@.with_query(without_word(old(self)@.query)),
            printable(old(self)@.query) ==> final(self)@.query == without_chars(
                without_chars(old(self)@.query, true),
                false,
            ),
    {
        let rest = drop_run(self.query.clone(), true);
        self.query = drop_run(rest, false);
        proof {
            a_word_is_deleted_from_the_end(old(self)@.query);
            lemma_deleting_keeps_admitted(old(self)@, self@.query.len() as int);
        }
        self.refilter();
    }

    /// Up on screen means older: matches render bottom-up with index 0, the best and newest, next
    /// to the input line.
    ///
    /// `visible` is the row count on screen now, which a resize can change between calls.
    pub fn move_up(&mut self, visible: usize)
        requires
            old(self).well_formed(),
        ensures
            final(self).well_formed(),
            final(self)@ == old(self)@.up(visible as int),
    {
        assert(indices(self.matches@).len() == self.matches@.len());
        if self.matches.len() > 0 && self.selected < self.matches.len() - 1 {
            self.selected += 1;
        }
        assert(self@.scores() =~= old(self)@.scores());
        self.ensure_visible(visible);
    }

    /// Down on screen means newer.
    pub fn move_down(&mut self, visible: usize)
        requires
            old(self).well_formed(),
        ensures
            final(self).well_formed(),
            final(self)@ == old(self)@.down(visible as int),
    {
        if self.selected > 0 {
            self.selected -= 1;
        }
        assert(self@.scores() =~= old(self)@.scores());
        self.follow(visible);
    }

    /// Keep the selection inside the window. Call before drawing so a resize cannot leave it off
    /// screen.
    pub fn ensure_visible(&mut self, visible: usize)
        requires
            old(self).well_formed(),
        ensures
            final(self).well_formed(),
            final(self)@ == old(self)@.shown(visible as int),
    {
        self.follow(visible);
    }

    fn follow(&mut self, visible: usize)
        requires
            indices(old(self).matches@) == old(self)@.matches(),
            old(self)@.selected == 0 || old(self)@.selected < old(self)@.matches().len(),
            old(self)@.dir_only ==> old(self)@.cwd is Some,
            old(self)@.admits(old(self)@.query),
        ensures
            final(self).well_formed(),
            final(self)@ == old(self)@.shown(visible as int),
    {
        if visible == 0 || self.selected < self.offset {
            self.offset = self.selected;
        } else if self.selected - self.offset >= visible {
            self.offset = self.selected - visible + 1;
        }
        assert(self@ =~= old(self)@.shown(visible as int));
        assert(self@.scores() =~= old(self)@.scores());
    }

    /// Rows in the window, best match first, with a selected flag. The caller draws them
    /// bottom-up.
    pub fn visible_rows(&self, visible: usize) -> (rows: Vec<(bool, &HistoryRow)>)
        requires
            self.well_formed(),
        ensures
            windowed(rows@) == self@.window(visible as int),
    {
        assert(indices(self.matches@).len() == self.matches@.len());
        let mut out: Vec<(bool, &HistoryRow)> = Vec::new();
        let left: usize = if self.offset < self.matches.len() {
            self.matches.len() - self.offset
        } else {
            0
        };
        let count: usize = if left < visible {
            left
        } else {
            visible
        };
        let ghost window = self@.window(visible as int);
        let mut k: usize = 0;
        while k < count
            invariant
                self.well_formed(),
                k <= count,
                count <= left,
                left > 0 ==> self.offset + left == self.matches@.len(),
                window == self@.window(visible as int),
                window.len() == count,
                out@.len() == k,
                forall|i: int|
                    0 <= i < k ==> (#[trigger] out@[i]).0 == window[i].0 && out@[i].1@
                        == window[i].1,
            decreases count - k,
        {
            assert(self.matches@.len() == self.matches.len());
            let position: usize = self.offset + k;
            proof {
                a_ranking_is_best_first(self@.scores());
                assert(indices(self.matches@)[position as int] == self.matches@[position as int]);
                assert(matching(self@.scores(), self@.matches()[position as int]));
            }
            let row = &self.rows[self.matches[position]];
            out.push((position == self.selected, row));
            k += 1;
        }
        assert(windowed(out@) =~= window);
        out
    }

    /// Rescore every row against the query. Runs on each keystroke, and returns the selection to
    /// the top so the best match is always the one Enter takes.
    fn refilter(&mut self)
        requires
            old(self)@.dir_only ==> old(self)@.cwd is Some,
            old(self)@.admits(old(self)@.query),
        ensures
            final(self).well_formed(),
            final(self)@ == old(self)@.at_top(),
    {
        self.selected = 0;
        self.offset = 0;
        let unfiltered = self.query.as_str().is_empty();
        let case_sensitive = holds_capital(self.query.as_str());
        let mut scores: Vec<Option<u32>> = Vec::new();
        let mut i: usize = 0;
        let ghost state = self@;
        while i < self.rows.len()
            invariant
                self@ == state,
                state == old(self)@.at_top(),
                state.admits(state.query),
                i <= self.rows@.len(),
                unfiltered == (state.query.len() == 0),
                case_sensitive == has_capital(state.query),
                scores@.len() == i,
                forall|k: int| 0 <= k < i ==> #[trigger] scores@[k] == state.score(k),
            decreases self.rows@.len() - i,
        {
            let ghost row = state.rows[i as int];
            assert(row == self.rows@[i as int]@);
            let in_scope = !self.dir_only || same_directory(&self.rows[i].cwd, &self.cwd);
            let points = if !in_scope {
                None
            } else if unfiltered {
                Some(0u32)
            } else {
                assert(scorable(state.query, row.cmd));
                score(
                    &mut self.scorer,
                    self.query.as_str(),
                    case_sensitive,
                    self.rows[i].cmd.as_str(),
                )
            };
            scores.push(points);
            i += 1;
        }
        self.matches = rank(&scores);
        assert(scores@ =~= state.scores());
        assert(self@ =~= state);
    }
}

/// What the rows of a window hold.
pub open spec fn windowed(rows: Seq<(bool, &HistoryRow)>) -> Seq<(bool, HistoryRowView)> {
    rows.map_values(|row: (bool, &HistoryRow)| (row.0, row.1@))
}

/// Whether a row's directory is known and is the picker's.
fn same_directory(row: &Option<String>, cwd: &Option<String>) -> (same: bool)
    ensures
        same == (optional(*row) is Some && optional(*row) == optional(*cwd)),
{
    match (row, cwd) {
        (Some(a), Some(b)) => *a == *b,
        _ => false,
    }
}

// ---------------------------------------------------------------------------------------------
// What holds of the picker
// ---------------------------------------------------------------------------------------------

/// An empty query keeps recency order: within the scope, the matches are the rows as they come.
pub proof fn an_empty_query_keeps_recency_order(search: Search)
    requires
        search.query.len() == 0,
    ensures
        forall|a: int, b: int|
            0 <= a < b < search.matches().len() ==> #[trigger] search.matches()[a]
                < #[trigger] search.matches()[b],
        forall|i: int|
            0 <= i < search.rows.len() ==> (#[trigger] search.matches().contains(i)
                <==> search.in_scope(search.rows[i])),
{
    let scores = search.scores();
    a_ranking_is_best_first(scores);
    assert forall|a: int, b: int| 0 <= a < b < search.matches().len() implies
        #[trigger] search.matches()[a] < #[trigger] search.matches()[b] by {
        assert(ranks_before(scores, search.matches()[a], search.matches()[b]));
        assert(matching(scores, search.matches()[a]));
        assert(matching(scores, search.matches()[b]));
    }
    assert forall|i: int| 0 <= i < search.rows.len() implies (
    #[trigger] search.matches().contains(i) <==> search.in_scope(search.rows[i])) by {
        if search.in_scope(search.rows[i]) {
            assert(matching(scores, i));
        }
        if search.matches().contains(i) {
            let k = choose|k: int| 0 <= k < search.matches().len() && search.matches()[k] == i;
            assert(matching(scores, search.matches()[k]));
        }
    }
}

/// One capital anywhere in the query makes the whole of it case sensitive; a query without one
/// ignores case throughout.
pub proof fn one_capital_makes_the_whole_query_case_sensitive(search: Search, i: int, k: int)
    requires
        0 <= i < search.rows.len(),
        search.in_scope(search.rows[i]),
        search.query.len() > 0,
        0 <= k < grapheme_clusters(search.query).len(),
    ensures
        capital(grapheme_clusters(search.query)[k][0]) ==> search.score(i) == fuzzy_score(
            search.query,
            true,
            search.rows[i].cmd,
        ),
        (forall|j: int|
            0 <= j < grapheme_clusters(search.query).len() ==> !capital(
                (#[trigger] grapheme_clusters(search.query)[j])[0],
            )) ==> search.score(i) == fuzzy_score(search.query, false, search.rows[i].cmd),
{
}

/// The matches are exactly the rows that score.
pub proof fn the_matches_are_the_rows_that_score(search: Search, i: int)
    requires
        0 <= i < search.rows.len(),
    ensures
        search.matches().contains(i) <==> search.score(i) is Some,
{
    a_ranking_is_best_first(search.scores());
    if search.score(i) is Some {
        assert(matching(search.scores(), i));
    }
    if search.matches().contains(i) {
        let k = choose|k: int| 0 <= k < search.matches().len() && search.matches()[k] == i;
        assert(matching(search.scores(), search.matches()[k]));
    }
}

/// A better score comes first, and on equal scores the newer command does.
pub proof fn better_and_newer_matches_come_first(search: Search, a: int, b: int)
    requires
        0 <= a < b < search.matches().len(),
    ensures
        ({
            let first = search.matches()[a];
            let second = search.matches()[b];
            &&& search.score(first)->0 >= search.score(second)->0
            &&& search.score(first) == search.score(second) ==> first < second
        }),
{
    let scores = search.scores();
    a_ranking_is_best_first(scores);
    assert(matching(scores, search.matches()[a]));
    assert(matching(scores, search.matches()[b]));
    assert(ranks_before(scores, search.matches()[a], search.matches()[b]));
}

/// Nothing outside the scope matches, whatever the query.
pub proof fn matches_are_in_scope(search: Search, k: int)
    requires
        0 <= k < search.matches().len(),
    ensures
        0 <= search.matches()[k] < search.rows.len(),
        search.in_scope(search.rows[search.matches()[k]]),
{
    a_ranking_is_best_first(search.scores());
    assert(matching(search.scores(), search.matches()[k]));
}

/// Narrowing the scope only takes matches away: what is left are the matches whose last run was in
/// the directory, in the order they had and with the scores they had.
pub proof fn narrowing_only_takes_matches_away(search: Search)
    requires
        search.cwd is Some,
        !search.dir_only,
    ensures
        search.toggled().matches() == search.matches().filter(
            |i: int| search.rows[i].cwd == search.cwd,
        ),
        forall|i: int| #[trigger]
            search.toggled().matches().contains(i) ==> search.toggled().score(i) == search.score(i),
{
    let narrow = search.toggled();
    let wide_scores = search.scores();
    let scores = narrow.scores();
    let here = |i: int| search.rows[i].cwd == search.cwd;
    let wide_member = |i: int| matching(wide_scores, i);
    let wide_before = |i: int, j: int| ranks_before(wide_scores, i, j);
    let member = |i: int| matching(scores, i);
    let before = |i: int, j: int| ranks_before(scores, i, j);
    a_ranking_is_best_first(scores);
    a_ranking_is_best_first(wide_scores);
    let kept = search.matches().filter(here);
    assert(arranged(search.matches(), wide_member, wide_before));
    filtering_keeps_the_order(search.matches(), here, wide_member, wide_before);
    assert forall|i: int| #[trigger] member(i) <==> wide_member(i) && here(i) by {}
    assert forall|a: int, b: int| 0 <= a < b < kept.len() implies before(
        #[trigger] kept[a],
        #[trigger] kept[b],
    ) by {
        assert(wide_before(kept[a], kept[b]));
        assert(member(kept[a]) && member(kept[b]));
    }
    assert forall|i: int| #[trigger] member(i) implies kept.contains(i) by {
        assert(wide_member(i) && here(i));
    }
    assert(arranged(kept, member, before));
    assert(strict_order(member, before));
    arrangement_is_unique(kept, member, before);
    assert forall|i: int| #[trigger] narrow.matches().contains(i) implies narrow.score(i)
        == search.score(i) by {
        let k = choose|k: int| 0 <= k < narrow.matches().len() && narrow.matches()[k] == i;
        assert(matching(scores, narrow.matches()[k]));
    }
}

/// Toggling the scope twice restores the scope, the query, and with them the matches; only the
/// selection returns to the top.
pub proof fn toggling_twice_restores_the_matches(search: Search)
    ensures
        search.toggled().toggled().at_top() == search.at_top(),
        search.toggled().toggled().matches() == search.matches(),
{
    assert(search.toggled().toggled().at_top() =~= search.at_top());
    assert(search.toggled().toggled().scores() =~= search.scores());
}

/// Without a directory to compare against, toggling changes nothing.
pub proof fn toggling_needs_a_directory(search: Search)
    requires
        search.cwd is None,
    ensures
        search.toggled() == search,
{
}

/// After any filtering the best match is selected.
pub proof fn filtering_selects_the_best_match(search: Search, query: Seq<char>)
    ensures
        search.with_query(query).selection() == {
            let matches = search.with_query(query).matches();
            if matches.len() > 0 {
                Some(search.rows[matches[0]].cmd)
            } else {
                None
            }
        },
{
}

/// A window with any rows holds the selection after it has followed it, and moving the window
/// changes nothing else.
pub proof fn the_window_follows_the_selection(search: Search, visible: int)
    requires
        search.consistent(),
        visible > 0,
    ensures
        search.shown(visible).offset <= search.selected < search.shown(visible).offset + visible,
        search.shown(visible) == (Search { offset: search.shown(visible).offset, ..search }),
        search.shown(visible).shown(visible) == search.shown(visible),
{
}

/// Exactly one row of a window that follows the selection is selected, when anything matches.
pub proof fn one_row_of_the_window_is_selected(search: Search, visible: int)
    requires
        search.consistent(),
        visible > 0,
        search.matches().len() > 0,
    ensures
        ({
            let shown = search.shown(visible);
            let at = shown.selected - shown.offset;
            &&& 0 <= at < shown.window(visible).len()
            &&& forall|k: int|
                0 <= k < shown.window(visible).len() ==> (#[trigger] shown.window(visible)[k].0
                    <==> k == at)
            &&& Some(shown.window(visible)[at].1.cmd) == search.selection()
        }),
{
    let shown = search.shown(visible);
    assert(shown.scores() =~= search.scores());
}

/// The selection clamps at both ends: it never leaves the matches, up moves it by one unless it is
/// the last, and down by one unless it is the first.
pub proof fn the_selection_clamps_at_both_ends(search: Search, visible: int)
    requires
        search.consistent(),
        visible >= 0,
    ensures
        search.up(visible).consistent(),
        search.down(visible).consistent(),
        search.up(visible).selected == if search.selected + 1 < search.matches().len() {
            search.selected + 1
        } else {
            search.selected
        },
        search.down(visible).selected == if search.selected > 0 {
            search.selected - 1
        } else {
            0
        },
{
    assert(search.up(visible).scores() =~= search.scores());
    assert(search.down(visible).scores() =~= search.scores());
}

// ---------------------------------------------------------------------------------------------
// What a search finds
// ---------------------------------------------------------------------------------------------

/// A ranking holds the positions that have a score, each once, the higher score first and between
/// equal ones the lower position.
pub proof fn a_ranking_goes_by_score_and_position(scores: Seq<Option<u32>>)
    ensures
        ranking(scores).no_duplicates(),
        forall|i: int| #[trigger]
            ranking(scores).contains(i) <==> 0 <= i < scores.len() && scores[i] is Some,
        forall|a: int, b: int|
            0 <= a < b < ranking(scores).len() ==> {
                let i = #[trigger] ranking(scores)[a];
                let j = #[trigger] ranking(scores)[b];
                scores[i]->0 > scores[j]->0 || (scores[i]->0 == scores[j]->0 && i < j)
            },
{
    a_ranking_is_best_first(scores);
    let order = ranking(scores);
    assert forall|i: int| #[trigger] order.contains(i) <==> 0 <= i < scores.len() && scores[i]
        is Some by {
        if order.contains(i) {
            let k = choose|k: int| 0 <= k < order.len() && order[k] == i;
            assert(matching(scores, order[k]));
        }
        if 0 <= i < scores.len() && scores[i] is Some {
            assert(matching(scores, i));
        }
    }
    assert forall|a: int, b: int| 0 <= a < b < order.len() implies {
        let i = #[trigger] order[a];
        let j = #[trigger] order[b];
        scores[i]->0 > scores[j]->0 || (scores[i]->0 == scores[j]->0 && i < j)
    } by {
        assert(ranks_before(scores, order[a], order[b]));
    }
    assert forall|a: int, b: int|
        0 <= a < order.len() && 0 <= b < order.len() && a != b implies order[a] != order[b] by {
        if a < b {
            assert(ranks_before(scores, order[a], order[b]));
        } else {
            assert(ranks_before(scores, order[b], order[a]));
        }
    }
}

/// Searching everything, a row is found exactly when nothing is typed or its command matches the
/// query, wherever it ran and whether or not that is known.
pub proof fn a_wide_search_finds_every_command_that_matches(search: Search, i: int)
    requires
        !search.dir_only,
        0 <= i < search.rows.len(),
    ensures
        search.matches().contains(i) <==> search.query.len() == 0 || fuzzy_score(
            search.query,
            has_capital(search.query),
            search.rows[i].cmd,
        ) is Some,
{
    a_ranking_goes_by_score_and_position(search.scores());
    assert(search.scores()[i] == search.score(i));
}

/// Narrowed to the directory, a row is found exactly when it last ran there and nothing is typed or
/// its command matches the query.
pub proof fn a_narrow_search_finds_what_ran_in_the_directory(
    search: Search,
    i: int,
    dir: Seq<char>,
)
    requires
        search.dir_only,
        search.cwd == Some(dir),
        0 <= i < search.rows.len(),
    ensures
        search.matches().contains(i) <==> search.rows[i].cwd == Some(dir) && (search.query.len()
            == 0 || fuzzy_score(
            search.query,
            has_capital(search.query),
            search.rows[i].cmd,
        ) is Some),
{
    a_ranking_goes_by_score_and_position(search.scores());
    assert(search.scores()[i] == search.score(i));
}

/// What is found is found once, and nothing but rows is. With nothing typed the newest row comes
/// first. With a query the better score does, and between equal scores the newer row.
pub proof fn what_is_found_goes_by_score_and_age(search: Search)
    ensures
        search.matches().no_duplicates(),
        forall|k: int|
            0 <= k < search.matches().len() ==> 0 <= #[trigger] search.matches()[k]
                < search.rows.len(),
        forall|a: int, b: int|
            0 <= a < b < search.matches().len() ==> {
                let i = #[trigger] search.matches()[a];
                let j = #[trigger] search.matches()[b];
                let points = |k: int|
                    fuzzy_score(
                        search.query,
                        has_capital(search.query),
                        search.rows[k].cmd,
                    )->0;
                if search.query.len() == 0 {
                    i < j
                } else {
                    points(i) > points(j) || (points(i) == points(j) && i < j)
                }
            },
{
    let scores = search.scores();
    let order = search.matches();
    a_ranking_goes_by_score_and_position(scores);
    assert forall|k: int| 0 <= k < order.len() implies 0 <= #[trigger] order[k]
        < search.rows.len() && scores[order[k]] is Some && scores[order[k]] == search.score(
        order[k],
    ) by {
        assert(order.contains(order[k]));
    }
}

/// A query holds a capital exactly when the first char of one of its visible characters is one that
/// the matcher folds to another and no lowercase letter.
pub proof fn a_capital_folds_and_is_not_lowercase(query: Seq<char>)
    ensures
        has_capital(query) <==> exists|k: int|
            0 <= k < grapheme_clusters(query).len() && {
                let c = (#[trigger] grapheme_clusters(query)[k])[0];
                upper_case(c) && folded(c) == c as int
            },
{
    if has_capital(query) {
        let k = choose|k: int|
            0 <= k < grapheme_clusters(query).len() && capital(
                (#[trigger] grapheme_clusters(query)[k])[0],
            );
        assert(upper_case(grapheme_clusters(query)[k][0]));
    }
    if exists|k: int|
        0 <= k < grapheme_clusters(query).len() && {
            let c = (#[trigger] grapheme_clusters(query)[k])[0];
            upper_case(c) && folded(c) == c as int
        } {
        let k = choose|k: int|
            0 <= k < grapheme_clusters(query).len() && {
                let c = (#[trigger] grapheme_clusters(query)[k])[0];
                upper_case(c) && folded(c) == c as int
            };
        assert(capital(grapheme_clusters(query)[k][0]));
    }
}

proof fn lemma_last_word_bound(query: Seq<char>)
    ensures
        last_word(query) <= 2 * query.len(),
    decreases query.len(),
{
    if query.len() > 0 {
        lemma_last_word_bound(query.drop_last());
    }
}

/// A query without accented letters can be searched for whatever the command holds, and any query
/// if the command holds no lowercase letter that folds to another, as long as the query is up to
/// 1260 characters or the command up to 2520 bytes long, and neither is beyond what the matcher
/// takes at all.
pub proof fn ordinary_queries_can_be_searched_for(query: Seq<char>, cmd: Seq<char>)
    requires
        (forall|i: int| 0 <= i < query.len() ==> (#[trigger] query[i] as int) < 0xb5) || (forall|
            i: int,
        |
            0 <= i < cmd.len() ==> folded(#[trigger] cmd[i]) == cmd[i] as int),
        query.len() <= 131071,
        encode_utf8(cmd).len() <= u32::MAX,
        query.len() <= 1260 || encode_utf8(cmd).len() <= 2520,
    ensures
        scorable(query, cmd),
{
    if query.len() <= 1260 {
        assert forall|n: int| 0 <= n <= query.len() implies last_word(#[trigger] query.take(n))
            <= LONG_WORD by {
            lemma_last_word_bound(query.take(n));
        }
    }
    assert forall|start: int, i: int| #[trigger]
        accented_word(query, start) && 0 <= i < cmd.len() implies !folds_alike(
        #[trigger] cmd[i],
        query[start],
    ) by {
        let j = choose|j: int| #[trigger] in_word(query, start, j) && accented(folded(query[j]));
        if forall|k: int| 0 <= k < query.len() ==> (#[trigger] query[k] as int) < 0xb5 {
            assert((query[j] as int) < 0xb5);
        }
    }
}

proof fn lemma_last_word_unbroken(query: Seq<char>)
    requires
        forall|k: int| 0 <= k < query.len() ==> #[trigger] query[k] != ' ',
    ensures
        last_word(query) >= query.len(),
    decreases query.len(),
{
    if query.len() > 0 {
        let shorter = query.drop_last();
        assert forall|k: int| 0 <= k < shorter.len() implies #[trigger] shorter[k] != ' ' by {
            assert(shorter[k] == query[k]);
        }
        assert(query[query.len() - 1] != ' ');
        lemma_last_word_unbroken(shorter);
    }
}

/// What the matcher cannot score is never let through: a query or a command that is too long, a
/// word and a command that are too long together, or an accented word that starts with what a
/// lowercase letter of the command folds to.
pub proof fn what_cannot_be_scored_is_not_searched_for(
    query: Seq<char>,
    cmd: Seq<char>,
    i: int,
    k: int,
)
    ensures
        query.len() > 131071 ==> !scorable(query, cmd),
        encode_utf8(cmd).len() > u32::MAX ==> !scorable(query, cmd),
        encode_utf8(cmd).len() > 2520 && query.len() > 2520 && (forall|j: int|
            0 <= j < query.len() ==> #[trigger] query[j] != ' ') ==> !scorable(query, cmd),
        0 < k < query.len() && 0 <= i < cmd.len() && (forall|j: int|
            0 <= j < query.len() ==> #[trigger] query[j] != ' ') && accented(folded(query[k]))
            && folded(cmd[i]) != cmd[i] as int && folded(cmd[i]) == folded(query[0]) ==> !scorable(
            query,
            cmd,
        ),
{
    if forall|j: int| 0 <= j < query.len() ==> #[trigger] query[j] != ' ' {
        if query.len() > 2520 {
            lemma_last_word_unbroken(query);
            assert(query.take(query.len() as int) =~= query);
        }
        if 0 < k < query.len() && 0 <= i < cmd.len() && accented(folded(query[k])) {
            assert forall|j: int| 0 <= j < query.len() implies !#[trigger] splits(query, j) by {
                assert(query[j] != ' ');
            }
            assert(in_word(query, 0, 1));
            assert(in_word(query, 0, k));
            assert(accented_word(query, 0));
            assert(folded(cmd[i]) == folded(query[0]) && folded(cmd[i]) != cmd[i] as int
                ==> folds_alike(cmd[i], query[0]));
        }
    }
}

/// A query can be typed when it can be searched for in every row, and not otherwise.
pub proof fn a_query_is_admitted_by_every_row(search: Search, query: Seq<char>)
    ensures
        search.admits(query) <==> forall|i: int|
            0 <= i < search.rows.len() ==> scorable(query, (#[trigger] search.rows[i]).cmd),
{
}

// ---------------------------------------------------------------------------------------------
// What keys do to a search
// ---------------------------------------------------------------------------------------------

/// A new query replaces the old one and puts the selection on the best match. Nothing else changes.
pub proof fn a_new_query_starts_at_the_best_match(search: Search, query: Seq<char>)
    ensures
        search.with_query(query).query == query,
        search.with_query(query).selected == 0,
        search.with_query(query).offset == 0,
        search.with_query(query).rows == search.rows,
        search.with_query(query).cwd == search.cwd,
        search.with_query(query).dir_only == search.dir_only,
{
}

/// Toggling switches between the directory and everything, and puts the selection on the best
/// match. Without a directory it does nothing.
pub proof fn toggling_switches_the_scope(search: Search)
    ensures
        search.toggled().rows == search.rows,
        search.toggled().query == search.query,
        search.toggled().cwd == search.cwd,
        search.cwd is Some ==> search.toggled().dir_only == !search.dir_only
            && search.toggled().selected == 0 && search.toggled().offset == 0,
        search.cwd is None ==> search.toggled().dir_only == search.dir_only
            && search.toggled().selected == search.selected && search.toggled().offset
            == search.offset,
{
}

/// Up selects the next match and down the one before, as far as there is one. The window moves no
/// further than it must to show the selection. Nothing else changes.
pub proof fn moving_selects_the_neighbour(search: Search, visible: int)
    requires
        search.consistent(),
        visible >= 0,
    ensures
        ({
            let up = search.up(visible);
            let down = search.down(visible);
            &&& search.selected + 1 < search.matches().len() ==> up.selected == search.selected + 1
            &&& search.selected + 1 >= search.matches().len() ==> up.selected == search.selected
            &&& search.selected > 0 ==> down.selected == search.selected - 1
            &&& search.selected == 0 ==> down.selected == 0
            &&& up.rows == search.rows && up.query == search.query && up.cwd == search.cwd
                && up.dir_only == search.dir_only
            &&& down.rows == search.rows && down.query == search.query && down.cwd == search.cwd
                && down.dir_only == search.dir_only
            &&& search.offset <= up.selected < search.offset + visible ==> up.offset
                == search.offset
            &&& visible > 0 && up.selected >= search.offset + visible ==> up.offset + visible
                == up.selected + 1
            &&& visible == 0 ==> up.offset == up.selected && down.offset == down.selected
            &&& search.offset <= down.selected < search.offset + visible ==> down.offset
                == search.offset
            &&& down.selected < search.offset ==> down.offset == down.selected
            &&& visible > 0 && down.selected >= search.offset + visible ==> down.offset + visible
                == down.selected + 1
        }),
{
}

/// A window that shows no rows starts at the selection, and showing the selection changes only
/// where the window starts.
pub proof fn showing_moves_only_the_window(search: Search, visible: int)
    requires
        search.consistent(),
        visible >= 0,
    ensures
        search.shown(visible).rows == search.rows,
        search.shown(visible).query == search.query,
        search.shown(visible).selected == search.selected,
        search.shown(visible).cwd == search.cwd,
        search.shown(visible).dir_only == search.dir_only,
        visible == 0 ==> search.shown(visible).offset == search.selected,
        search.offset <= search.selected < search.offset + visible ==> search.shown(visible).offset
            == search.offset,
        visible > 0 && search.selected >= search.offset + visible ==> search.shown(visible).offset
            == search.selected + 1 - visible,
{
}

/// The selection is the command of the match that is selected, and the picker holds one exactly
/// when anything matches.
pub proof fn the_selection_is_the_selected_match(search: Search)
    requires
        search.consistent(),
    ensures
        search.matches().len() > 0 ==> search.selection() == Some(
            search.rows[search.matches()[search.selected]].cmd,
        ),
        search.matches().len() == 0 ==> search.selection() is None,
        search.dir_only ==> search.cwd is Some,
        0 <= search.offset <= search.selected,
        search.selected == 0 || search.selected < search.matches().len(),
{
}

/// The window shows the matches from where it starts, in order, as many as fit and there are, and
/// marks the selected one.
pub proof fn the_window_shows_the_matches_in_order(search: Search, visible: int)
    requires
        search.consistent(),
        visible >= 0,
    ensures
        ({
            let window = search.window(visible);
            &&& window.len() <= visible
            &&& search.offset <= search.matches().len() ==> window.len() <= search.matches().len()
                - search.offset && (window.len() == visible || window.len()
                == search.matches().len() - search.offset)
            &&& forall|k: int|
                0 <= k < window.len() ==> (#[trigger] window[k]).1
                    == search.rows[search.matches()[search.offset + k]] && (window[k].0
                    <==> search.offset + k == search.selected)
        }),
{
}

/// The rows that are handed out are the rows of the window.
pub proof fn window_rows_keep_their_places(rows: Seq<(bool, &HistoryRow)>)
    ensures
        windowed(rows).len() == rows.len(),
        forall|k: int|
            0 <= k < rows.len() ==> #[trigger] windowed(rows)[k] == (rows[k].0, rows[k].1@),
{
}

/// Backspace takes the last visible character off the query, whole, and nothing else.
pub proof fn backspace_takes_the_last_visible_character(text: Seq<char>, cluster: Seq<char>)
    ensures
        shortened(text + cluster, Some(cluster)) == text,
        shortened(text, None) == text,
{
    assert((text + cluster).take(text.len() as int) =~= text);
}

/// Characters are deleted from the end as long as they are blank, or as long as they are not, and
/// no further.
pub proof fn a_run_ends_where_the_characters_differ(text: Seq<char>, whitespace: bool)
    ensures
        ({
            let rest = without_chars(text, whitespace);
            &&& rest.len() <= text.len()
            &&& rest == text.take(rest.len() as int)
            &&& forall|k: int|
                rest.len() <= k < text.len() ==> blank(seq![#[trigger] text[k]]) == whitespace
            &&& rest.len() > 0 ==> blank(seq![rest.last()]) != whitespace
        }),
    decreases text.len(),
{
    if text.len() > 0 {
        crate::text::blanks_are_judged_one_by_one(Seq::empty(), Seq::empty(), text.last());
        let last = text.last();
        assert(blank(seq![last]) == crate::text::whitespace(last)) by {
            assert(seq![last][0] == last);
        }
        if crate::text::whitespace(last) == whitespace {
            let shorter = text.drop_last();
            a_run_ends_where_the_characters_differ(shorter, whitespace);
            let rest = without_chars(text, whitespace);
            assert(shorter.take(rest.len() as int) =~= text.take(rest.len() as int));
            assert forall|k: int| rest.len() <= k < text.len() implies blank(
                seq![#[trigger] text[k]],
            ) == whitespace by {
                if k < shorter.len() {
                    assert(shorter[k] == text[k]);
                }
            }
        } else {
            assert(text.take(text.len() as int) =~= text);
        }
    } else {
        assert(text.take(0) =~= text);
    }
}

/// Visible characters are deleted from the end one by one, as long as each is blank, or as long as
/// none is.
pub proof fn a_run_is_deleted_by_visible_characters(text: Seq<char>, cluster: Seq<char>)
    requires
        cluster.len() > 0,
    ensures
        last_cluster(text + cluster) == Some(cluster) ==> {
            &&& blank(cluster) ==> without_run(text + cluster, true) == without_run(text, true)
            &&& blank(cluster) ==> without_run(text + cluster, false) == text + cluster
            &&& !blank(cluster) ==> without_run(text + cluster, false) == without_run(text, false)
            &&& !blank(cluster) ==> without_run(text + cluster, true) == text + cluster
        },
        last_cluster(text) is None ==> without_run(text, true) == text && without_run(text, false)
            == text,
{
    assert((text + cluster).take(text.len() as int) =~= text);
}

/// A word is deleted with the blanks after it: first the blanks, then the characters before them
/// that are not.
pub proof fn a_word_goes_with_the_blanks_after_it(text: Seq<char>, cluster: Seq<char>)
    requires
        cluster.len() > 0,
    ensures
        last_cluster(text + cluster) == Some(cluster) ==> {
            &&& blank(cluster) ==> without_word(text + cluster) == without_word(text)
            &&& !blank(cluster) ==> without_word(text + cluster) == without_run(text, false)
        },
{
    a_run_is_deleted_by_visible_characters(text, cluster);
}

} // verus!
