//! Text helpers against what the standard library does.

use std::path::Path;

use padloper::paths::{extend, is_named, last_name};
use padloper::text::{
    all_digits, decimal_string, integer_string, is_whitespace, join, parse_integer, split_lines,
    strip_prefix, trim,
};

fn chars(text: &str) -> Vec<char> {
    text.chars().collect()
}

#[test]
fn whitespace_is_what_unicode_says() {
    for c in '\0'..=char::MAX {
        assert_eq!(is_whitespace(c), c.is_whitespace(), "{c:?}");
    }
}

#[test]
fn lines_split_as_the_standard_library_splits_them() {
    for text in ["", "\n", "a", "a\n", "a\nb", "a\r\nb\r", "\n\n", "\r\n", "a\n\r\nb", "\r\r\n"] {
        let all = chars(text);
        let mine: Vec<String> = split_lines(&all).iter().map(|l| l.iter().collect()).collect();
        let std: Vec<String> = text.lines().map(str::to_string).collect();
        assert_eq!(mine, std, "{text:?}");
    }
}

#[test]
fn trimming_agrees_with_the_standard_library() {
    for text in ["", "  ", " a b ", "\u{2003}x\t\n", "x", "\u{200b}y"] {
        assert_eq!(trim(text), text.trim(), "{text:?}");
    }
}

#[test]
fn integers_are_written_and_read_as_the_standard_library_does() {
    for n in [0, 1, -1, 9, 10, 255, -4096, i64::MAX, i64::MIN] {
        assert_eq!(integer_string(n), n.to_string());
        assert_eq!(parse_integer(&chars(&n.to_string())), Some(n));
    }
    assert_eq!(decimal_string(u64::MAX), u64::MAX.to_string());
    for text in ["", "+", "-", "+7", "-0", "007", "1 ", "x", "9223372036854775808",
        "-9223372036854775809", "99999999999999999999999", "--1", "\u{0661}"]
    {
        assert_eq!(parse_integer(&chars(text)), text.parse::<i64>().ok(), "{text:?}");
    }
    assert!(all_digits(&chars("0123")));
    assert!(!all_digits(&chars("")));
    assert!(!all_digits(&chars("12a")));
}

#[test]
fn prefixes_are_stripped_whole() {
    let text = chars("- cmd: ls");
    let rest = strip_prefix(&text, "- cmd: ").expect("prefix");
    assert_eq!(rest.iter().collect::<String>(), "ls");
    assert!(strip_prefix(&text, "-cmd").is_none());
    assert!(strip_prefix(&text, "- cmd: ls more").is_none());
}

#[test]
fn joining_puts_the_separator_between() {
    let words = |words: &[&str]| words.iter().map(|w| w.to_string()).collect::<Vec<_>>();
    assert_eq!(join(&words(&[]), " "), "");
    assert_eq!(join(&words(&["a"]), " "), "a");
    assert_eq!(join(&words(&["a", "", "b"]), ", "), "a, , b");
}

#[test]
fn paths_join_and_end_as_the_standard_library_has_them() {
    for path in ["/bin/fish", "fish", "/", "", "/a/b/", "/a/.", "a/./.", "..", "/a/..", ".", "./x",
        "/a//b", "./.", "a/../b"]
    {
        let std = Path::new(path).file_name().map(|name| name.to_str().expect("utf8"));
        let mine = last_name(path.as_bytes()).map(|name| std::str::from_utf8(name).expect("utf8"));
        assert_eq!(mine, std, "{path:?}");
        let joined = Path::new(path).join("x");
        assert_eq!(extend(path.as_bytes(), "x"), joined.to_str().expect("utf8").as_bytes());
    }
    assert!(is_named(b"zsh", "zsh"));
    assert!(!is_named(b"zsh", "fish"));
    assert!(!is_named(b"zs\xff", "zsh"));
}
