//! Text, held against what the standard library does with it.

use clt::text::{
    blank, contains, ends_with, is_whitespace, join, lines, only_digits, parse_u32, same,
    sorts_before_or_same, split, starts_with, strip_prefix, swap_char, to_ascii_lower, to_decimal,
    to_hex16, to_signed, trim, trim_end, words,
};

const SAMPLES: [&str; 9] = [
    "",
    " ",
    "plain",
    "  two  words \n",
    "line one\nline two\r\n\nline four",
    "trailing\n",
    "\u{a0}\u{2003}wide\u{3000}",
    "a/b//c/",
    "ünïcödé \t text",
];

#[test]
fn blank_space_is_what_std_says_it_is() {
    for n in 0..=0x10ffff_u32 {
        if let Some(c) = char::from_u32(n) {
            assert_eq!(is_whitespace(c), c.is_whitespace(), "U+{n:04X}");
        }
    }
}

#[test]
fn trimming_and_cutting_agree_with_std() {
    for s in SAMPLES {
        assert_eq!(trim(s), s.trim());
        assert_eq!(trim_end(s), s.trim_end());
        assert_eq!(blank(s), s.trim().is_empty());
        assert_eq!(words(s), s.split_whitespace().collect::<Vec<_>>());
        assert_eq!(lines(s), s.lines().collect::<Vec<_>>());
        assert_eq!(split(s, '/'), s.split('/').collect::<Vec<_>>());
        assert_eq!(to_ascii_lower(s), s.to_ascii_lowercase());
        assert_eq!(swap_char(s, 'i', 'x'), s.replace('i', "x"));
        for t in SAMPLES {
            assert_eq!(same(s, t), s == t);
            assert_eq!(contains(s, t), s.contains(t));
            assert_eq!(starts_with(s, t), s.starts_with(t));
            assert_eq!(ends_with(s, t), s.ends_with(t));
            assert_eq!(strip_prefix(s, t).as_deref(), s.strip_prefix(t));
            assert_eq!(sorts_before_or_same(s, t), s <= t, "{s:?} {t:?}");
        }
    }
    let parts: Vec<String> = words(" a  b c ");
    assert_eq!(join(&parts, ", "), "a, b, c");
}

#[test]
fn numbers_are_written_and_read_as_std_does() {
    for n in [0_u64, 7, 10, 99, 4_294_967_295, u64::MAX] {
        assert_eq!(to_decimal(n), n.to_string());
        assert_eq!(to_hex16(n), format!("{n:016x}"));
    }
    for n in [0_i32, 5, -1, i32::MIN, i32::MAX] {
        assert_eq!(to_signed(n), n.to_string());
    }
    assert_eq!(parse_u32("4294967295"), Some(u32::MAX));
    assert_eq!(parse_u32("4294967296"), None);
    assert_eq!(parse_u32("007"), Some(7));
    assert!(only_digits("0123456789"));
    assert!(!only_digits("12a"));
}
