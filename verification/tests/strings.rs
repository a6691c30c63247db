//! Strings: splitting, trimming, numbers, lines and order.

use ctsq::order::sort_strings;
use ctsq::text::{
    after, after_first, before, contains_text, decimal, dedup, first_line, is_capitalized, join,
    nth_line, parse_number, rsplit_once, split, starts_with, str_eq, str_lt, strip_prefix, trim,
    trim_char,
};

fn strings(v: &[&str]) -> Vec<String> {
    v.iter().map(|s| s.to_string()).collect()
}

#[test]
fn numbers_are_written_in_decimal_and_read_back() {
    for n in [0, 7, 10, 42, 100, 90210, usize::MAX] {
        assert_eq!(decimal(n), n.to_string());
        assert_eq!(parse_number(&decimal(n)), Some(n));
    }
}

#[test]
fn numbers_are_read_as_the_standard_library_does() {
    for s in [
        "", "+", "-", "-1", "+12", "007", "1 ", " 1", "12a", "1_000", "++1", "٣",
        "18446744073709551615", "18446744073709551616", "99999999999999999999999",
    ] {
        assert_eq!(parse_number(s), s.parse::<usize>().ok(), "{:?}", s);
    }
}

#[test]
fn white_space_is_trimmed() {
    for s in ["", " ", " a b\t", "\u{3000}x\u{a0}", "\r\n x \u{b}\u{c}", "x"] {
        assert_eq!(trim(s), s.trim(), "{:?}", s);
    }
}

#[test]
fn a_character_is_trimmed_on_both_sides() {
    assert_eq!(trim_char("\"\"a\"b\"", '"'), "a\"b");
    assert_eq!(trim_char("\"\"\"", '"'), "");
    assert_eq!(trim_char("ab", '"'), "ab");
}

#[test]
fn texts_are_split() {
    for (s, sep) in [("a, b,c", ", "), ("", ", "), (", ", ", "), ("aXXXb", "XX"), ("é::ü", "::")] {
        let expected: Vec<String> = s.split(sep).map(String::from).collect();
        assert_eq!(split(s, sep), expected, "{:?} {:?}", s, sep);
    }
    assert_eq!(before("f(x)(y)", '('), "f");
    assert_eq!(before("f", '('), "f");
    assert_eq!(after("a.b.c", '.'), "c");
    assert_eq!(after("abc", '.'), "abc");
    assert_eq!(after_first("1: a: b", ": "), Some("a: b".to_string()));
    assert_eq!(after_first("1:a", ": "), None);
    assert_eq!(rsplit_once("a.b.c", '.'), Some(("a.b".to_string(), "c".to_string())));
    assert_eq!(rsplit_once("abc", '.'), None);
    assert_eq!(strip_prefix("NewServer", "New"), Some("Server".to_string()));
    assert_eq!(strip_prefix("Server", "New"), None);
    assert!(contains_text("a::b", "::"));
    assert!(!contains_text("a:b", "::"));
    assert!(starts_with("_root1", "_root"));
    assert!(!starts_with("_ro", "_root"));
}

#[test]
fn lines_are_those_of_the_standard_library() {
    for s in ["", "\n", "a", "a\n", "a\r\nb", "a\n\nb\r", "\r\n\r\nx"] {
        for n in 0..4 {
            assert_eq!(nth_line(s, n), s.lines().nth(n).map(String::from), "{:?} {}", s, n);
        }
        assert_eq!(first_line(s), s.lines().next().unwrap_or(s), "{:?}", s);
    }
}

#[test]
fn strings_are_ordered_by_their_bytes() {
    let words = ["", "a", "aa", "b", "B", "é", "z", "\u{ffff}", "\u{10000}", "10", "9"];
    for a in words {
        for b in words {
            assert_eq!(str_lt(a, b), a < b, "{:?} {:?}", a, b);
            assert_eq!(str_eq(a, b), a == b, "{:?} {:?}", a, b);
        }
    }
}

#[test]
fn capitals_are_uppercase_letters() {
    assert!(is_capitalized("Foo"));
    assert!(is_capitalized("Ärger"));
    assert!(!is_capitalized("foo"));
    assert!(!is_capitalized("_Foo"));
    assert!(!is_capitalized(""));
}

#[test]
fn repeated_strings_are_dropped() {
    let v = strings(&["b", "a", "b", "c", "a"]);
    assert_eq!(dedup(&v), strings(&["b", "a", "c"]));
    assert_eq!(join(&v, "-"), "b-a-b-c-a");
    assert_eq!(join(&strings(&[]), "-"), "");
}

#[test]
fn strings_are_sorted() {
    let mut words = strings(&["b", "a", "", "10", "9", "é", "Z", "a", "ab", "b"]);
    let sorted = sort_strings(&words);
    words.sort();
    assert_eq!(sorted, words);
    let many: Vec<String> = (0..500).map(|i| format!("{}", (i * 7919) % 1000)).collect();
    let mut expected = many.clone();
    expected.sort();
    assert_eq!(sort_strings(&many), expected);
}
