use ir::text::decimal::{append_decimal, parse_i64};
use ir::text::lines::{join_with, split_lines, split_on};
use ir::text::words::{
    contains, is_all_blank, is_before, is_whitespace, lowercase_chars, same, split_words,
    starts_with, trimmed,
};

const TEXTS: [&str; 14] = [
    "",
    "a",
    " a b ",
    "a\n",
    "a\r\nb\rc\n\n",
    "\r\n",
    "x,y,,z,",
    "über \u{2003}öl\u{85}",
    "日本語\nテキスト",
    "A-Z äÖ",
    "  ",
    "1\u{a0}2",
    "\u{feff}x",
    "end\r",
];

#[test]
fn whitespace_is_that_of_the_standard_library() {
    for n in 0..=0x10FFFFu32 {
        if let Some(c) = char::from_u32(n) {
            assert_eq!(is_whitespace(c), c.is_whitespace(), "{n:x}");
        }
    }
}

#[test]
fn texts_are_taken_apart_as_in_the_standard_library() {
    for s in TEXTS {
        assert_eq!(split_lines(s), s.lines().collect::<Vec<_>>(), "{s:?}");
        assert_eq!(split_on(s, ','), s.split(',').collect::<Vec<_>>(), "{s:?}");
        assert_eq!(split_on(s, '\n'), s.split('\n').collect::<Vec<_>>(), "{s:?}");
        assert_eq!(split_words(s), s.split_whitespace().collect::<Vec<_>>(), "{s:?}");
        assert_eq!(trimmed(s), s.trim(), "{s:?}");
        assert_eq!(is_all_blank(s), s.trim().is_empty(), "{s:?}");
        assert_eq!(
            lowercase_chars(s),
            s.to_ascii_lowercase().chars().collect::<Vec<_>>(),
            "{s:?}"
        );
    }
}

#[test]
fn texts_compare_as_in_the_standard_library() {
    for a in TEXTS {
        for b in TEXTS {
            assert_eq!(same(a, b), a == b);
            assert_eq!(is_before(a, b), a < b);
            assert_eq!(starts_with(a, b), a.starts_with(b));
            let (x, y) = (a.chars().collect(), b.chars().collect());
            assert_eq!(contains(&x, &y), a.contains(b));
        }
    }
}

#[test]
fn splitting_and_joining_give_the_text_back() {
    for s in TEXTS {
        let parts: Vec<String> = split_on(s, '\n').iter().map(|p| p.to_string()).collect();
        assert_eq!(join_with(&parts, "\n"), s);
    }
    let parts = vec!["a".to_string(), "".to_string(), "b c".to_string()];
    assert_eq!(split_on(&join_with(&parts, "\n"), '\n'), parts);
    assert_eq!(join_with(&vec![], ", "), "");
    assert_eq!(join_with(&vec!["a".to_string(), "".to_string()], ", "), "a, ");
}

#[test]
fn integers_are_written_and_read() {
    for n in [0, 7, 10, -1, 12345, i64::MAX, i64::MIN] {
        let mut s = String::from("n=");
        append_decimal(&mut s, n);
        assert_eq!(s, format!("n={n}"));
        assert_eq!(parse_i64(&n.to_string()), Some(n));
    }
    for s in ["", "+", "-", "+5", "-0", "1x", " 1", "9223372036854775808", "00012"] {
        assert_eq!(parse_i64(s), s.parse::<i64>().ok(), "{s:?}");
    }
}
