//! Lines, words and numbers.

use ovreplay::number::{read_number, write_decimal, write_hex_id, write_number};
use ovreplay::text::{is_whitespace, same, split_lines, split_whitespace, trimmed_after};

#[test]
fn lines_end_in_line_feeds() {
    let text = "a\r\n\nb\rc\n d";
    assert_eq!(split_lines(text), text.lines().collect::<Vec<_>>());
    assert_eq!(split_lines("a\r\nb\r"), vec!["a", "b\r"]);
    assert_eq!(split_lines("a\n"), vec!["a"]);
    assert!(split_lines("").is_empty());
}

#[test]
fn words_are_parted_by_whitespace() {
    let text = "\u{a0} one\ttwo\u{2003}three  \u{85}";
    assert_eq!(split_whitespace(text), vec!["one", "two", "three"]);
    assert!(split_whitespace(" \t ").is_empty());
    let (a, b) = ("x yz", "w v");
    let joined: Vec<String> = split_whitespace(a).into_iter().chain(split_whitespace(b)).collect();
    assert_eq!(split_whitespace(&format!("{a} {b}")), joined);
}

#[test]
fn whitespace_is_that_of_unicode() {
    for c in '\0'..=char::MAX {
        assert_eq!(is_whitespace(c), c.is_whitespace(), "{c:?}");
    }
}

#[test]
fn a_text_is_trimmed_behind_its_first_bytes() {
    assert_eq!(trimmed_after("TAG  text \t", 3), "text");
    assert_eq!(trimmed_after("TA", 3), "");
    assert_eq!(trimmed_after("a\u{e9}b", 2), "");
    assert_eq!(trimmed_after("a\u{e9}b", 3), "b");
    assert_eq!(trimmed_after("\u{1f600}b", 4), "b");
}

#[test]
fn texts_are_the_same_or_not() {
    assert!(same("U", "U"));
    assert!(!same("U", "V"));
    assert!(!same("U", "UU"));
}

#[test]
fn numbers_are_read_as_std_reads_them() {
    for s in ["0", "7", "+7", "007", "255", "256", "-1", "", "+", "++1", "1 ", "a", "ff", "FF", "+ff", "100"] {
        assert_eq!(read_number(s, 10, 255), s.parse::<u8>().ok().map(u64::from), "{s}");
        assert_eq!(read_number(s, 16, 255), u8::from_str_radix(s, 16).ok().map(u64::from), "{s}");
    }
    assert_eq!(read_number("18446744073709551615", 10, u64::MAX), Some(u64::MAX));
    assert_eq!(read_number("18446744073709551616", 10, u64::MAX), None);
    assert_eq!(read_number("99999999999999999999999999", 10, u64::MAX), None);
}

#[test]
fn numbers_that_were_written_read_back() {
    for n in [0, 9, 10, 4096, u64::MAX] {
        for radix in [2, 10, 16, 36] {
            assert_eq!(read_number(&write_number(n, radix), radix, u64::MAX), Some(n));
        }
    }
    assert_eq!(write_decimal(4_294_967_296), "4294967296");
    assert_eq!(write_number(255, 16), "ff");
}

#[test]
fn device_numbers_have_four_digits_at_least() {
    assert_eq!(write_hex_id(0x7d51), "0x7d51");
    assert_eq!(write_hex_id(0), "0x0000");
    assert_eq!(write_hex_id(0xab), "0x00ab");
    assert_eq!(write_hex_id(0x0012_3456), "0x123456");
}
