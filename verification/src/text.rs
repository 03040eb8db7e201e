//! Text as sequences of characters: blanks, lines, numbers, joining.
//!
//! Every parser and formatter in the crate is stated over `Seq<char>`, the view that `str` and
//! `String` share, so the functions here are where the two meet: each takes or returns real
//! strings and says, over views, which characters they hold.

use vstd::prelude::*;
use vstd::slice::slice_subrange;

verus! {

/// [`String::push`] appends one character to the end of the string.
pub assume_specification[ String::push ](s: &mut String, c: char)
    ensures
        final(s)@ == old(s)@.push(c),
;

// ---------------------------------------------------------------------------------------------
// Strings and character vectors
// ---------------------------------------------------------------------------------------------

/// The characters of a string.
pub fn chars_of(text: &str) -> (chars: Vec<char>)
    ensures
        chars@ == text@,
{
    let mut out: Vec<char> = Vec::new();
    for c in it: text.chars()
        invariant
            out@ == it.seq().take(it.index() as int),
            it.seq() == text@,
    {
        out.push(c);
    }
    out
}

/// A string holding the given characters.
pub fn string_of(chars: &[char]) -> (text: String)
    ensures
        text@ == chars@,
{
    let mut out = String::new();
    let mut i: usize = 0;
    while i < chars.len()
        invariant
            i <= chars@.len(),
            out@ == chars@.take(i as int),
        decreases chars@.len() - i,
    {
        out.push(chars[i]);
        i += 1;
        assert(chars@.take(i as int) =~= chars@.take(i - 1).push(chars@[i - 1]));
    }
    assert(chars@.take(i as int) =~= chars@);
    out
}

/// The views of the strings in a sequence.
pub open spec fn texts(strings: Seq<String>) -> Seq<Seq<char>> {
    strings.map_values(|s: String| s@)
}

/// The view of an optional string.
pub open spec fn optional(text: Option<String>) -> Option<Seq<char>> {
    match text {
        Some(t) => Some(t@),
        None => None,
    }
}

/// A copy of an optional string.
pub fn copy_optional(text: &Option<String>) -> (copy: Option<String>)
    ensures
        optional(copy) == optional(*text),
{
    match text {
        Some(t) => Some(t.clone()),
        None => None,
    }
}

/// Whether two character slices are equal.
pub fn same_chars(a: &[char], b: &[char]) -> (same: bool)
    ensures
        same == (a@ == b@),
{
    if a.len() != b.len() {
        return false;
    }
    let mut i: usize = 0;
    while i < a.len()
        invariant
            a@.len() == b@.len(),
            i <= a@.len(),
            forall|k: int| 0 <= k < i ==> a@[k] == b@[k],
        decreases a@.len() - i,
    {
        if a[i] != b[i] {
            assert(a@[i as int] != b@[i as int]);
            return false;
        }
        i += 1;
    }
    assert(a@ =~= b@);
    true
}

/// Whether `text` begins with `prefix`.
pub open spec fn has_prefix(text: Seq<char>, prefix: Seq<char>) -> bool {
    prefix.len() <= text.len() && text.subrange(0, prefix.len() as int) == prefix
}

/// What follows `prefix` in `text`, when `text` begins with it.
pub open spec fn without_prefix(text: Seq<char>, prefix: Seq<char>) -> Option<Seq<char>> {
    if has_prefix(text, prefix) {
        Some(text.skip(prefix.len() as int))
    } else {
        None
    }
}

/// What follows `prefix` in `text`, or None when `text` begins otherwise.
pub fn strip_prefix<'a>(text: &'a [char], prefix: &str) -> (rest: Option<&'a [char]>)
    ensures
        match rest {
            Some(r) => without_prefix(text@, prefix@) == Some(r@),
            None => without_prefix(text@, prefix@) is None,
        },
{
    let p = chars_of(prefix);
    if p.len() <= text.len() && same_chars(slice_subrange(text, 0, p.len()), p.as_slice()) {
        let r = slice_subrange(text, p.len(), text.len());
        assert(r@ =~= text@.skip(p@.len() as int));
        Some(r)
    } else {
        None
    }
}

// ---------------------------------------------------------------------------------------------
// Blanks
// ---------------------------------------------------------------------------------------------

/// The characters with the Unicode `White_Space` property.
pub open spec fn whitespace(c: char) -> bool {
    ||| '\u{9}' <= c <= '\u{d}'
    ||| c == ' '
    ||| c == '\u{85}'
    ||| c == '\u{a0}'
    ||| c == '\u{1680}'
    ||| '\u{2000}' <= c <= '\u{200a}'
    ||| c == '\u{2028}'
    ||| c == '\u{2029}'
    ||| c == '\u{202f}'
    ||| c == '\u{205f}'
    ||| c == '\u{3000}'
}

/// Whether a character is Unicode whitespace.
pub fn is_whitespace(c: char) -> (yes: bool)
    ensures
        yes == whitespace(c),
{
    ('\u{9}' <= c && c <= '\u{d}') || c == ' ' || c == '\u{85}' || c == '\u{a0}' || c == '\u{1680}'
        || ('\u{2000}' <= c && c <= '\u{200a}') || c == '\u{2028}' || c == '\u{2029}' || c
        == '\u{202f}' || c == '\u{205f}' || c == '\u{3000}'
}

/// Nothing but whitespace, or nothing at all.
pub open spec fn blank(text: Seq<char>) -> bool {
    forall|i: int| 0 <= i < text.len() ==> whitespace(#[trigger] text[i])
}

/// Whether a slice holds nothing but whitespace.
pub fn is_blank(text: &[char]) -> (yes: bool)
    ensures
        yes == blank(text@),
{
    let mut i: usize = 0;
    while i < text.len()
        invariant
            i <= text@.len(),
            forall|k: int| 0 <= k < i ==> whitespace(#[trigger] text@[k]),
        decreases text@.len() - i,
    {
        if !is_whitespace(text[i]) {
            assert(!whitespace(text@[i as int]));
            return false;
        }
        i += 1;
    }
    true
}

/// `text` without its leading whitespace.
pub open spec fn trim_start(text: Seq<char>) -> Seq<char>
    decreases text.len(),
{
    if text.len() > 0 && whitespace(text[0]) {
        trim_start(text.drop_first())
    } else {
        text
    }
}

/// `text` without its trailing whitespace.
pub open spec fn trim_end(text: Seq<char>) -> Seq<char>
    decreases text.len(),
{
    if text.len() > 0 && whitespace(text.last()) {
        trim_end(text.drop_last())
    } else {
        text
    }
}

/// `text` without the whitespace at either end.
pub open spec fn trimmed(text: Seq<char>) -> Seq<char> {
    trim_end(trim_start(text))
}

proof fn lemma_trim_start(text: Seq<char>, from: int)
    requires
        0 <= from <= text.len(),
        forall|k: int| 0 <= k < from ==> whitespace(#[trigger] text[k]),
        from < text.len() ==> !whitespace(text[from]),
    ensures
        trim_start(text) == text.skip(from),
    decreases from,
{
    if from > 0 {
        assert(whitespace(text[0]));
        lemma_trim_start(text.drop_first(), from - 1);
        assert(text.drop_first().skip(from - 1) =~= text.skip(from));
    } else {
        assert(text.skip(0) =~= text);
    }
}

proof fn lemma_trim_end(text: Seq<char>, to: int)
    requires
        0 <= to <= text.len(),
        forall|k: int| to <= k < text.len() ==> whitespace(#[trigger] text[k]),
        to > 0 ==> !whitespace(text[to - 1]),
    ensures
        trim_end(text) == text.take(to),
    decreases text.len() - to,
{
    if to < text.len() {
        assert(whitespace(text[text.len() - 1]));
        lemma_trim_end(text.drop_last(), to);
        assert(text.drop_last().take(to) =~= text.take(to));
    } else {
        assert(text.take(to) =~= text);
    }
}

/// A trimmed text is empty exactly when the text was blank.
pub proof fn blank_text_trims_to_nothing(text: Seq<char>)
    ensures
        trimmed(text).len() == 0 <==> blank(text),
    decreases text.len(),
{
    if text.len() > 0 && whitespace(text[0]) {
        blank_text_trims_to_nothing(text.drop_first());
        if blank(text.drop_first()) {
            assert forall|i: int| 0 <= i < text.len() implies whitespace(#[trigger] text[i]) by {
                if i > 0 {
                    assert(text.drop_first()[i - 1] == text[i]);
                }
            }
        } else {
            assert(exists|i: int| 0 <= i < text.len() && !whitespace(#[trigger] text[i])) by {
                let k = choose|k: int|
                    0 <= k < text.drop_first().len() && !whitespace(
                        #[trigger] text.drop_first()[k],
                    );
                assert(!whitespace(text[k + 1]));
            }
        }
    } else if text.len() > 0 {
        assert(!whitespace(text[0]));
        lemma_trim_end_keeps_first(text);
    }
}

proof fn lemma_trim_end_keeps_first(text: Seq<char>)
    requires
        text.len() > 0,
        !whitespace(text[0]),
    ensures
        trim_end(text).len() > 0,
    decreases text.len(),
{
    if whitespace(text.last()) {
        assert(text.len() > 1);
        lemma_trim_end_keeps_first(text.drop_last());
    }
}

/// The part of a slice between its leading and its trailing whitespace.
pub fn trim_chars(text: &[char]) -> (inner: &[char])
    ensures
        inner@ == trimmed(text@),
{
    let mut from: usize = 0;
    while from < text.len() && is_whitespace(text[from])
        invariant
            from <= text@.len(),
            forall|k: int| 0 <= k < from ==> whitespace(#[trigger] text@[k]),
        decreases text@.len() - from,
    {
        from += 1;
    }
    let tail = slice_subrange(text, from, text.len());
    proof {
        lemma_trim_start(text@, from as int);
        assert(tail@ =~= text@.skip(from as int));
    }
    let mut to: usize = tail.len();
    while to > 0 && is_whitespace(tail[to - 1])
        invariant
            to <= tail@.len(),
            forall|k: int| to <= k < tail@.len() ==> whitespace(#[trigger] tail@[k]),
        decreases to,
    {
        to -= 1;
    }
    let inner = slice_subrange(tail, 0, to);
    proof {
        lemma_trim_end(tail@, to as int);
        assert(inner@ =~= tail@.take(to as int));
    }
    inner
}

/// A string without the whitespace at either end.
pub fn trim(text: &str) -> (inner: String)
    ensures
        inner@ == trimmed(text@),
{
    let chars = chars_of(text);
    string_of(trim_chars(chars.as_slice()))
}

// ---------------------------------------------------------------------------------------------
// Lines
// ---------------------------------------------------------------------------------------------

/// Where `c` first occurs in `text`, or the length of `text` when it does not.
pub open spec fn position(text: Seq<char>, c: char) -> nat
    decreases text.len(),
{
    if text.len() == 0 || text[0] == c {
        0
    } else {
        1 + position(text.drop_first(), c)
    }
}

/// A position is characterised by what stands before it and at it.
pub proof fn lemma_position(text: Seq<char>, c: char, at: int)
    requires
        0 <= at <= text.len(),
        forall|k: int| 0 <= k < at ==> #[trigger] text[k] != c,
        at < text.len() ==> text[at] == c,
    ensures
        position(text, c) == at,
    decreases at,
{
    if at > 0 {
        assert(text[0] != c);
        lemma_position(text.drop_first(), c, at - 1);
    }
}

/// Where `c` first occurs in a slice, or its length.
pub fn find(text: &[char], c: char) -> (at: usize)
    ensures
        at == position(text@, c),
        at <= text@.len(),
        at < text@.len() ==> text@[at as int] == c,
{
    let mut at: usize = 0;
    while at < text.len() && text[at] != c
        invariant
            at <= text@.len(),
            forall|k: int| 0 <= k < at ==> #[trigger] text@[k] != c,
        decreases text@.len() - at,
    {
        at += 1;
    }
    proof {
        lemma_position(text@, c, at as int);
    }
    at
}

/// A line without the carriage return that a line feed followed.
pub open spec fn without_return(line: Seq<char>) -> Seq<char> {
    if line.len() > 0 && line.last() == '\r' {
        line.drop_last()
    } else {
        line
    }
}

/// The lines of a text. Each ends at a line feed, which may follow a carriage return; neither
/// belongs to the line. The last line needs no ending, and a carriage return there stays.
pub open spec fn lines(text: Seq<char>) -> Seq<Seq<char>>
    decreases text.len(),
{
    let end = position(text, '\n') as int;
    if text.len() == 0 {
        Seq::empty()
    } else if end >= text.len() {
        seq![text]
    } else {
        seq![without_return(text.take(end))] + lines(text.skip(end + 1))
    }
}

/// A text that starts with a whole line has it as its first line.
pub proof fn lemma_first_line(line: Seq<char>, rest: Seq<char>)
    requires
        forall|k: int| 0 <= k < line.len() ==> #[trigger] line[k] != '\n',
    ensures
        lines(line + seq!['\n'] + rest) == seq![without_return(line)] + lines(rest),
{
    let text = line + seq!['\n'] + rest;
    assert forall|k: int| 0 <= k < line.len() implies #[trigger] text[k] != '\n' by {
        assert(text[k] == line[k]);
    }
    lemma_position(text, '\n', line.len() as int);
    assert(text.take(line.len() as int) =~= line);
    assert(text.skip(line.len() as int + 1) =~= rest);
}

/// A text made of whole lines, each ended by a line feed.
pub open spec fn ended(parts: Seq<Seq<char>>) -> Seq<char>
    decreases parts.len(),
{
    if parts.len() == 0 {
        Seq::empty()
    } else {
        parts[0] + seq!['\n'] + ended(parts.drop_first())
    }
}

/// Whether a text is a line as it stands: nothing in it or at its end belongs to a line ending.
pub open spec fn one_line(text: Seq<char>) -> bool {
    &&& forall|k: int| 0 <= k < text.len() ==> #[trigger] text[k] != '\n'
    &&& text.len() > 0 ==> text.last() != '\r'
}

/// A text made of whole lines splits into those lines.
pub proof fn whole_lines_read_back(parts: Seq<Seq<char>>)
    requires
        forall|i: int| 0 <= i < parts.len() ==> one_line(#[trigger] parts[i]),
    ensures
        lines(ended(parts)) == parts,
    decreases parts.len(),
{
    if parts.len() > 0 {
        let rest = parts.drop_first();
        assert forall|i: int| 0 <= i < rest.len() implies one_line(#[trigger] rest[i]) by {
            assert(rest[i] == parts[i + 1]);
        }
        whole_lines_read_back(rest);
        assert(one_line(parts[0]));
        lemma_first_line(parts[0], ended(rest));
        assert(seq![parts[0]] + rest =~= parts);
    } else {
        assert(parts =~= Seq::empty());
    }
}

/// The views of the slices in a sequence.
pub open spec fn slices(parts: Seq<&[char]>) -> Seq<Seq<char>> {
    parts.map_values(|part: &[char]| part@)
}

/// Split a text into its lines.
pub fn split_lines(text: &[char]) -> (out: Vec<&[char]>)
    ensures
        slices(out@) == lines(text@),
{
    let mut out: Vec<&[char]> = Vec::new();
    let mut from: usize = 0;
    proof {
        assert(text@.skip(0) =~= text@);
        assert(slices(out@) + lines(text@) =~= lines(text@));
    }
    while from < text.len()
        invariant
            from <= text@.len(),
            slices(out@) + lines(text@.skip(from as int)) == lines(text@),
        decreases text@.len() - from,
    {
        let rest = slice_subrange(text, from, text.len());
        let end = find(rest, '\n');
        let ghost before = slices(out@);
        assert(rest@ =~= text@.skip(from as int));
        if end == rest.len() {
            out.push(rest);
            from = text.len();
            proof {
                assert(slices(out@) =~= before.push(rest@));
                assert(text@.skip(from as int) =~= Seq::empty());
                assert(slices(out@) + lines(text@.skip(from as int)) =~= before + seq![rest@]);
            }
        } else {
            let whole = slice_subrange(rest, 0, end);
            assert(whole@ =~= rest@.take(end as int));
            let line = if whole.len() > 0 && whole[whole.len() - 1] == '\r' {
                let shorter = slice_subrange(whole, 0, whole.len() - 1);
                assert(shorter@ =~= whole@.drop_last());
                shorter
            } else {
                whole
            };
            out.push(line);
            from = from + end + 1;
            proof {
                assert(line@ == without_return(rest@.take(end as int)));
                assert(slices(out@) =~= before.push(line@));
                assert(rest@.skip(end + 1) =~= text@.skip(from as int));
                assert(slices(out@) + lines(text@.skip(from as int)) =~= before + (seq![line@]
                    + lines(rest@.skip(end + 1))));
            }
        }
    }
    proof {
        assert(text@.skip(from as int) =~= Seq::empty());
        assert(slices(out@) + lines(text@.skip(from as int)) =~= slices(out@));
    }
    out
}

// ---------------------------------------------------------------------------------------------
// Joining
// ---------------------------------------------------------------------------------------------

/// The parts in order, with `separator` between each two.
pub open spec fn joined(parts: Seq<Seq<char>>, separator: Seq<char>) -> Seq<char>
    decreases parts.len(),
{
    if parts.len() == 0 {
        Seq::empty()
    } else if parts.len() == 1 {
        parts[0]
    } else {
        joined(parts.drop_last(), separator) + separator + parts.last()
    }
}

/// Join strings with a separator between each two.
pub fn join(parts: &Vec<String>, separator: &str) -> (out: String)
    ensures
        out@ == joined(texts(parts@), separator@),
{
    let mut out = String::new();
    let mut i: usize = 0;
    let ghost all = texts(parts@);
    while i < parts.len()
        invariant
            i <= parts@.len(),
            all == texts(parts@),
            out@ == joined(all.take(i as int), separator@),
        decreases parts@.len() - i,
    {
        if i > 0 {
            out.append(separator);
        }
        out.append(parts[i].as_str());
        proof {
            assert(all.take(i + 1).drop_last() =~= all.take(i as int));
            assert(all.take(i + 1).last() == parts@[i as int]@);
        }
        i += 1;
    }
    assert(all.take(i as int) =~= all);
    out
}

/// Join the slices from `from` up to `to` with a separator between each two.
pub fn join_slices(parts: &Vec<&[char]>, from: usize, to: usize, separator: &str) -> (out: String)
    requires
        from <= to <= parts@.len(),
    ensures
        out@ == joined(slices(parts@).subrange(from as int, to as int), separator@),
{
    let mut out = String::new();
    let mut i: usize = from;
    let ghost all = slices(parts@).subrange(from as int, to as int);
    while i < to
        invariant
            from <= i <= to <= parts@.len(),
            all == slices(parts@).subrange(from as int, to as int),
            out@ == joined(all.take(i - from), separator@),
        decreases to - i,
    {
        if i > from {
            out.append(separator);
        }
        let part = string_of(parts[i]);
        out.append(part.as_str());
        proof {
            assert(all.take(i + 1 - from).drop_last() =~= all.take(i - from));
            assert(all.take(i + 1 - from).last() == parts@[i as int]@);
        }
        i += 1;
    }
    assert(all.take(to - from) =~= all);
    out
}

// ---------------------------------------------------------------------------------------------
// Numbers
// ---------------------------------------------------------------------------------------------

/// The decimal digit of a number below ten.
pub open spec fn digit(d: nat) -> char {
    (48 + d) as char
}

/// The decimal digits of a number, most significant first, without leading zeros.
pub open spec fn decimal(n: nat) -> Seq<char>
    decreases n,
{
    if n < 10 {
        seq![digit(n)]
    } else {
        decimal(n / 10).push(digit(n % 10))
    }
}

/// A number as text, with a minus sign when it is negative.
pub open spec fn integer(n: int) -> Seq<char> {
    if n < 0 {
        seq!['-'] + decimal((-n) as nat)
    } else {
        decimal(n as nat)
    }
}

fn push_decimal(out: &mut String, n: u64)
    ensures
        final(out)@ == old(out)@ + decimal(n as nat),
    decreases n,
{
    if n >= 10 {
        push_decimal(out, n / 10);
    }
    let d: u8 = (n % 10) as u8;
    out.push((48u8 + d) as char);
    proof {
        assert(digit((n % 10) as nat) == (48u8 + d) as char);
        if n < 10 {
            assert(out@ =~= old(out)@ + decimal(n as nat));
        } else {
            assert(out@ =~= old(out)@ + decimal(n as nat));
        }
    }
}

/// The decimal digits of an unsigned number.
pub fn decimal_string(n: u64) -> (out: String)
    ensures
        out@ == decimal(n as nat),
{
    let mut out = String::new();
    push_decimal(&mut out, n);
    assert(out@ =~= decimal(n as nat));
    out
}

/// A signed number as text.
pub fn integer_string(n: i64) -> (out: String)
    ensures
        out@ == integer(n as int),
{
    let mut out = String::new();
    if n < 0 {
        out.push('-');
        let magnitude: i128 = -(n as i128);
        push_decimal(&mut out, magnitude as u64);
        assert(out@ =~= integer(n as int));
    } else {
        push_decimal(&mut out, n as u64);
        assert(out@ =~= integer(n as int));
    }
    out
}

/// Whether a character is an ASCII decimal digit.
pub open spec fn is_digit(c: char) -> bool {
    '0' <= c <= '9'
}

/// At least one character, and each an ASCII decimal digit.
pub open spec fn digits(text: Seq<char>) -> bool {
    text.len() > 0 && forall|i: int| 0 <= i < text.len() ==> is_digit(#[trigger] text[i])
}

/// The number that decimal digits denote.
pub open spec fn value(text: Seq<char>) -> nat
    decreases text.len(),
{
    if text.len() == 0 {
        0
    } else {
        value(text.drop_last()) * 10 + (text.last() as nat - 48) as nat
    }
}

/// Writing a number and reading the digits back gives the number.
pub proof fn decimal_reads_back(n: nat)
    ensures
        digits(decimal(n)),
        value(decimal(n)) == n,
    decreases n,
{
    if n < 10 {
        assert(decimal(n).drop_last() =~= Seq::empty());
        assert(value(decimal(n).drop_last()) == 0);
    } else {
        decimal_reads_back(n / 10);
        let rest = decimal(n / 10);
        assert(decimal(n).drop_last() =~= rest);
        assert forall|i: int| 0 <= i < decimal(n).len() implies is_digit(
            #[trigger] decimal(n)[i],
        ) by {
            if i < rest.len() {
                assert(decimal(n)[i] == rest[i]);
            }
        }
    }
}

/// Whether a slice is one or more ASCII digits.
pub fn all_digits(text: &[char]) -> (yes: bool)
    ensures
        yes == digits(text@),
{
    let mut i: usize = 0;
    while i < text.len()
        invariant
            i <= text@.len(),
            forall|k: int| 0 <= k < i ==> is_digit(#[trigger] text@[k]),
        decreases text@.len() - i,
    {
        let c = text[i];
        if c < '0' || c > '9' {
            assert(!is_digit(text@[i as int]));
            return false;
        }
        i += 1;
    }
    text.len() > 0
}

proof fn lemma_value_grows(text: Seq<char>, from: int)
    requires
        0 <= from <= text.len(),
    ensures
        value(text.take(from)) <= value(text),
    decreases text.len() - from,
{
    if from < text.len() {
        lemma_value_grows(text, from + 1);
        assert(text.take(from + 1).drop_last() =~= text.take(from));
    } else {
        assert(text.take(from) =~= text);
    }
}

/// The number that digits denote, or None when it does not fit.
pub fn digits_value(text: &[char]) -> (n: Option<u64>)
    requires
        digits(text@),
    ensures
        match n {
            Some(v) => v == value(text@),
            None => value(text@) > u64::MAX,
        },
{
    let mut n: u64 = 0;
    let mut i: usize = 0;
    while i < text.len()
        invariant
            i <= text@.len(),
            digits(text@),
            n == value(text@.take(i as int)),
        decreases text@.len() - i,
    {
        let c = text[i];
        proof {
            assert(is_digit(text@[i as int]));
            assert(text@.take(i + 1).drop_last() =~= text@.take(i as int));
            lemma_value_grows(text@, i + 1);
        }
        let d: u64 = c as u64 - 48;
        if n > (u64::MAX - d) / 10 {
            return None;
        }
        n = n * 10 + d;
        i += 1;
    }
    assert(text@.take(i as int) =~= text@);
    Some(n)
}

/// The number that an optional sign and digits denote, when a 64-bit signed integer holds it.
pub open spec fn parsed(text: Seq<char>) -> Option<int> {
    let signed = text.len() > 0 && (text[0] == '-' || text[0] == '+');
    let magnitude = if signed {
        text.skip(1)
    } else {
        text
    };
    let n: int = if signed && text[0] == '-' {
        -(value(magnitude) as int)
    } else {
        value(magnitude) as int
    };
    if digits(magnitude) && i64::MIN <= n <= i64::MAX {
        Some(n)
    } else {
        None
    }
}

/// Writing a signed integer and reading it gives the integer.
pub proof fn integer_reads_back(n: int)
    requires
        i64::MIN <= n <= i64::MAX,
    ensures
        parsed(integer(n)) == Some(n),
{
    if n < 0 {
        decimal_reads_back((-n) as nat);
        assert(integer(n).skip(1) =~= decimal((-n) as nat));
    } else {
        decimal_reads_back(n as nat);
        assert(is_digit(decimal(n as nat)[0]));
    }
}

/// A signed integer is written in digits and a minus sign.
pub proof fn lemma_integer_chars(n: int)
    requires
        i64::MIN <= n <= i64::MAX,
    ensures
        integer(n).len() > 0,
        forall|k: int|
            0 <= k < integer(n).len() ==> is_digit(#[trigger] integer(n)[k]) || integer(n)[k]
                == '-',
{
    if n < 0 {
        decimal_reads_back((-n) as nat);
        let d = decimal((-n) as nat);
        assert forall|k: int| 0 <= k < integer(n).len() implies is_digit(#[trigger] integer(n)[k])
            || integer(n)[k] == '-' by {
            if k > 0 {
                assert(integer(n)[k] == d[k - 1]);
            }
        }
    } else {
        decimal_reads_back(n as nat);
    }
}

/// Read a signed integer: an optional sign, then digits, and nothing else.
pub fn parse_integer(text: &[char]) -> (n: Option<i64>)
    ensures
        match n {
            Some(v) => parsed(text@) == Some(v as int),
            None => parsed(text@) is None,
        },
{
    let signed = text.len() > 0 && (text[0] == '-' || text[0] == '+');
    let magnitude = if signed {
        let m = slice_subrange(text, 1, text.len());
        assert(m@ =~= text@.skip(1));
        m
    } else {
        text
    };
    if !all_digits(magnitude) {
        return None;
    }
    match digits_value(magnitude) {
        None => None,
        Some(v) => {
            let n: i128 = if signed && text[0] == '-' {
                -(v as i128)
            } else {
                v as i128
            };
            if -9223372036854775808i128 <= n && n <= 9223372036854775807i128 {
                Some(n as i64)
            } else {
                None
            }
        },
    }
}

// ---------------------------------------------------------------------------------------------
// What the words above mean
// ---------------------------------------------------------------------------------------------

/// The view of an optional string is there when the string is, and holds its characters.
pub proof fn an_optional_text_keeps_its_characters(text: Option<String>)
    ensures
        text is None ==> optional(text) is None,
        text matches Some(t) ==> optional(text) == Some(t@),
{
}

/// Every string keeps its place and its characters.
pub proof fn texts_keep_their_places(strings: Seq<String>)
    ensures
        texts(strings).len() == strings.len(),
        forall|i: int| 0 <= i < strings.len() ==> #[trigger] texts(strings)[i] == strings[i]@,
{
}

/// Every slice keeps its place and its characters.
pub proof fn slices_keep_their_places(parts: Seq<&[char]>)
    ensures
        slices(parts).len() == parts.len(),
        forall|i: int| 0 <= i < parts.len() ==> #[trigger] slices(parts)[i] == parts[i]@,
{
}

/// A text begins with a prefix exactly when it is the prefix and something after it, and that is
/// what is left without the prefix.
pub proof fn a_prefix_and_the_rest_make_the_text(
    text: Seq<char>,
    prefix: Seq<char>,
    rest: Seq<char>,
)
    ensures
        without_prefix(text, prefix) == Some(rest) <==> text == prefix + rest,
        has_prefix(text, prefix) <==> without_prefix(text, prefix) is Some,
        has_prefix(prefix + rest, prefix),
{
    assert((prefix + rest).subrange(0, prefix.len() as int) =~= prefix);
    assert((prefix + rest).skip(prefix.len() as int) =~= rest);
    if without_prefix(text, prefix) == Some(rest) {
        assert(text =~= text.subrange(0, prefix.len() as int) + text.skip(prefix.len() as int));
    }
}

/// A text is blank when each of its characters is: a space, a tab, a line ending, or one of the
/// other characters that Unicode calls white space.
pub proof fn blanks_are_judged_one_by_one(a: Seq<char>, b: Seq<char>, c: char)
    ensures
        blank(Seq::empty()),
        blank(a + b) <==> blank(a) && blank(b),
        blank(seq![c]) <==> (0x9 <= c as int <= 0xd || c == ' ' || c as int == 0x85 || c as int
            == 0xa0 || c as int == 0x1680 || 0x2000 <= c as int <= 0x200a || c as int == 0x2028
            || c as int == 0x2029 || c as int == 0x202f || c as int == 0x205f || c as int
            == 0x3000),
{
    if blank(a) && blank(b) {
        assert forall|i: int| 0 <= i < (a + b).len() implies whitespace(#[trigger] (a + b)[i]) by {
            if i < a.len() {
                assert(whitespace(a[i]));
            } else {
                assert(whitespace(b[i - a.len()]));
            }
        }
    }
    if blank(a + b) {
        assert forall|i: int| 0 <= i < a.len() implies whitespace(#[trigger] a[i]) by {
            assert(whitespace((a + b)[i]));
        }
        assert forall|i: int| 0 <= i < b.len() implies whitespace(#[trigger] b[i]) by {
            assert(whitespace((a + b)[i + a.len()]));
        }
    }
    if whitespace(c) {
        assert(blank(seq![c]));
    } else {
        assert(!whitespace(seq![c][0]));
    }
}

proof fn lemma_trim_start_split(text: Seq<char>) -> (from: int)
    ensures
        0 <= from <= text.len(),
        trim_start(text) == text.skip(from),
        forall|k: int| 0 <= k < from ==> whitespace(#[trigger] text[k]),
        from < text.len() ==> !whitespace(text[from]),
    decreases text.len(),
{
    if text.len() > 0 && whitespace(text[0]) {
        let rest = text.drop_first();
        let n = lemma_trim_start_split(rest);
        assert(rest.skip(n) =~= text.skip(n + 1));
        assert forall|k: int| 0 <= k < n + 1 implies whitespace(#[trigger] text[k]) by {
            if k > 0 {
                assert(whitespace(rest[k - 1]));
            }
        }
        if n < rest.len() {
            assert(rest[n] == text[n + 1]);
        }
        n + 1
    } else {
        assert(text.skip(0) =~= text);
        0
    }
}

proof fn lemma_trim_end_split(text: Seq<char>) -> (to: int)
    ensures
        0 <= to <= text.len(),
        trim_end(text) == text.take(to),
        forall|k: int| to <= k < text.len() ==> whitespace(#[trigger] text[k]),
        to > 0 ==> !whitespace(text[to - 1]),
    decreases text.len(),
{
    if text.len() > 0 && whitespace(text.last()) {
        let rest = text.drop_last();
        let n = lemma_trim_end_split(rest);
        assert(rest.take(n) =~= text.take(n));
        assert forall|k: int| n <= k < text.len() implies whitespace(#[trigger] text[k]) by {
            if k < rest.len() {
                assert(whitespace(rest[k]));
            }
        }
        n
    } else {
        assert(text.take(text.len() as int) =~= text);
        text.len() as int
    }
}

/// Trimming takes blanks off both ends and nothing else: what stood before and after is blank, and
/// what is left neither starts nor ends with a blank.
pub proof fn trimming_takes_blanks_off_the_ends(text: Seq<char>)
    ensures
        exists|before: Seq<char>, after: Seq<char>|
            blank(before) && blank(after) && text == #[trigger] (before + trimmed(text) + after),
        trimmed(text).len() > 0 ==> !blank(seq![trimmed(text)[0]]) && !blank(
            seq![trimmed(text).last()],
        ),
{
    let from = lemma_trim_start_split(text);
    let tail = trim_start(text);
    let to = lemma_trim_end_split(tail);
    let before = text.take(from);
    let after = tail.skip(to);
    assert(blank(before));
    assert forall|k: int| 0 <= k < after.len() implies whitespace(#[trigger] after[k]) by {
        assert(whitespace(tail[k + to]));
    }
    assert(text =~= before + trimmed(text) + after);
    let inner = trimmed(text);
    if inner.len() > 0 {
        assert(inner[0] == text[from]);
        assert(inner.last() == tail[to - 1]);
        assert(!whitespace(seq![inner[0]][0]));
        assert(!whitespace(seq![inner.last()][0]));
    }
}

/// The position of a character is where it first occurs, or the end when it does not.
pub proof fn a_position_is_the_first(text: Seq<char>, c: char)
    ensures
        position(text, c) <= text.len(),
        position(text, c) < text.len() ==> text[position(text, c) as int] == c,
        forall|k: int| 0 <= k < position(text, c) ==> #[trigger] text[k] != c,
    decreases text.len(),
{
    if text.len() > 0 && text[0] != c {
        let rest = text.drop_first();
        a_position_is_the_first(rest, c);
        assert forall|k: int| 0 <= k < position(text, c) implies #[trigger] text[k] != c by {
            if k > 0 {
                assert(rest[k - 1] == text[k]);
            }
        }
    }
}

/// A line feed ends a line, alone or after a carriage return. What follows the last one is a line
/// too, unless nothing does.
pub proof fn lines_end_at_line_feeds(line: Seq<char>, rest: Seq<char>)
    requires
        forall|k: int| 0 <= k < line.len() ==> #[trigger] line[k] != '\n',
    ensures
        lines(Seq::empty()) == Seq::<Seq<char>>::empty(),
        line.len() > 0 ==> lines(line) == seq![line],
        line.len() == 0 || line.last() != '\r' ==> lines(line + seq!['\n'] + rest) == seq![line]
            + lines(rest),
        lines(line + seq!['\r', '\n'] + rest) == seq![line] + lines(rest),
{
    lemma_first_line(line, rest);
    let returned = line.push('\r');
    lemma_first_line(returned, rest);
    assert(returned + seq!['\n'] + rest =~= line + seq!['\r', '\n'] + rest);
    assert(returned.drop_last() =~= line);
    lemma_position(line, '\n', line.len() as int);
}

/// Joining puts the separator between parts and nowhere else.
pub proof fn joining_only_separates(
    first: Seq<Seq<char>>,
    second: Seq<Seq<char>>,
    part: Seq<char>,
    separator: Seq<char>,
)
    ensures
        joined(Seq::empty(), separator) == Seq::<char>::empty(),
        joined(seq![part], separator) == part,
        first.len() > 0 && second.len() > 0 ==> joined(first + second, separator) == joined(
            first,
            separator,
        ) + separator + joined(second, separator),
    decreases second.len(),
{
    if first.len() > 0 && second.len() > 0 {
        let all = first + second;
        assert(all.drop_last() =~= first + second.drop_last());
        assert(all.last() == second.last());
        if second.len() > 1 {
            joining_only_separates(first, second.drop_last(), part, separator);
            assert(joined(all, separator) =~= joined(first, separator) + separator + joined(
                second,
                separator,
            ));
        } else {
            assert(first + second.drop_last() =~= first);
        }
    }
}

/// Digits are the ten of ASCII, and a number has at least one.
pub proof fn digits_are_decimal(a: Seq<char>, b: Seq<char>, c: char)
    ensures
        digits(seq![c]) <==> '0' <= c <= '9',
        a.len() > 0 && b.len() > 0 ==> (digits(a + b) <==> digits(a) && digits(b)),
        !digits(Seq::empty()),
{
    assert(seq![c][0] == c);
    if digits(a) && digits(b) {
        assert forall|i: int| 0 <= i < (a + b).len() implies is_digit(#[trigger] (a + b)[i]) by {
            if i < a.len() {
                assert(is_digit(a[i]));
            } else {
                assert(is_digit(b[i - a.len()]));
            }
        }
    }
    if a.len() > 0 && b.len() > 0 && digits(a + b) {
        assert forall|i: int| 0 <= i < a.len() implies is_digit(#[trigger] a[i]) by {
            assert(is_digit((a + b)[i]));
        }
        assert forall|i: int| 0 <= i < b.len() implies is_digit(#[trigger] b[i]) by {
            assert(is_digit((a + b)[i + a.len()]));
        }
    }
}

/// Each digit counts ten times the one after it.
pub proof fn digits_count_by_tens(text: Seq<char>, c: char)
    requires
        '0' <= c <= '9',
    ensures
        value(seq![c]) == c as int - '0' as int,
        value(text.push(c)) == value(text) * 10 + (c as int - '0' as int),
{
    assert(text.push(c).drop_last() =~= text);
    assert(seq![c].drop_last() =~= Seq::empty());
    assert(value(seq![c].drop_last()) == 0);
}

/// A number is written in digits that denote it, with no zero before them.
pub proof fn a_number_is_written_without_leading_zeros(n: nat)
    ensures
        digits(decimal(n)),
        value(decimal(n)) == n,
        decimal(n)[0] == '0' ==> decimal(n) == seq!['0'],
    decreases n,
{
    decimal_reads_back(n);
    if n >= 10 {
        a_number_is_written_without_leading_zeros(n / 10);
        assert(decimal(n)[0] == decimal(n / 10)[0]);
        if decimal(n / 10)[0] == '0' {
            assert(value(seq!['0']) == 0) by {
                digits_count_by_tens(Seq::empty(), '0');
            }
        }
    }
}

/// A signed number is its digits, with a minus sign before them when it is negative.
pub proof fn a_negative_number_has_a_minus_sign(n: nat)
    ensures
        integer(n as int) == decimal(n),
        n > 0 ==> integer(-(n as int)) == seq!['-'] + decimal(n),
{
}

/// A signed number reads as what its digits denote, negative after a minus sign, when 64 bits hold
/// it. Nothing else reads as a number.
pub proof fn a_sign_and_digits_read_as_a_number(text: Seq<char>)
    ensures
        digits(text) ==> parsed(text) == if value(text) <= 0x7fff_ffff_ffff_ffff {
            Some(value(text) as int)
        } else {
            None
        },
        digits(text) ==> parsed(seq!['+'] + text) == parsed(text),
        digits(text) ==> parsed(seq!['-'] + text) == if value(text) <= 0x8000_0000_0000_0000 {
            Some(-(value(text) as int))
        } else {
            None
        },
        parsed(text) is Some ==> digits(text) || (text.len() > 0 && (text[0] == '+' || text[0]
            == '-') && digits(text.skip(1))),
{
    assert((seq!['+'] + text).skip(1) =~= text);
    assert((seq!['-'] + text).skip(1) =~= text);
    if digits(text) {
        assert(is_digit(text[0]));
    }
}

} // verus!
