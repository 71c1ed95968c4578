//! Characters and texts against the standard library.

use amiga_game_vault::text::{
    alnum, chars_of, digit, integer_chars, lowered, parse_u32, space, string_of, text_before,
    trimmed, two_digit_chars,
};

fn every_char() -> impl Iterator<Item = char> {
    (0..=0x10_ffff).filter_map(char::from_u32)
}

#[test]
fn characters_are_classed_as_in_std() {
    for c in every_char() {
        assert_eq!(space(c), c.is_whitespace(), "{c:?}");
        assert_eq!(digit(c), c.is_ascii_digit(), "{c:?}");
        assert_eq!(alnum(c), c.is_ascii_alphanumeric(), "{c:?}");
        assert_eq!(lowered(&[c]), vec![c.to_ascii_lowercase()], "{c:?}");
    }
}

#[test]
fn texts_are_trimmed_as_in_std() {
    for s in ["", "  a b ", "\u{3000}ä\u{a0}", "\t\n", "x"] {
        assert_eq!(string_of(&trimmed(&chars_of(s))), s.trim());
    }
}

#[test]
fn numbers_are_read_as_in_std() {
    for s in [
        "", "0", "7", "+7", "++7", "-7", "007", "4294967295", "4294967296", "99999999999", "1a",
        "+", " 1",
    ] {
        assert_eq!(parse_u32(&chars_of(s)), s.parse::<u32>().ok(), "{s:?}");
    }
}

#[test]
fn numbers_are_written_as_in_std() {
    for n in [0u32, 1, 9, 10, 99, 100, u32::MAX] {
        assert_eq!(string_of(&two_digit_chars(n)), format!("{n:02}"));
    }
    for n in [0i64, 7, -7, 10, -10, i64::MAX, i64::MIN] {
        assert_eq!(string_of(&integer_chars(n)), format!("{n}"));
    }
}

#[test]
fn texts_are_ordered_as_in_std() {
    let all = ["", "A", "AA", "B", "a", "a ", "é", "z", "\u{10ffff}"];
    for a in all {
        for b in all {
            assert_eq!(text_before(a, b), a < b, "{a:?} {b:?}");
        }
    }
}
