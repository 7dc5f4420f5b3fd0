//! Text, held against what std does with it.

use thor::text::{
    begins_with, byte_list_text, contains, dec_text, ends_with, eq_ignore_case, hex_text, int_text,
    is_space_char, join, padded_left, padded_right, same_text, text_from_utf8, to_upper, trim,
    without_trailing,
};

#[test]
fn whitespace_is_that_of_unicode() {
    for u in 0..=0x10ffffu32 {
        if let Some(c) = char::from_u32(u) {
            assert_eq!(is_space_char(c), c.is_whitespace(), "{u:#x}");
        }
    }
}

#[test]
fn numerals_agree_with_std() {
    for n in [0u64, 1, 9, 10, 15, 16, 255, 256, 1_000_000, u64::MAX] {
        assert_eq!(dec_text(n), n.to_string());
        assert_eq!(hex_text(n, false), format!("{n:x}"));
        assert_eq!(hex_text(n, true), format!("{n:X}"));
    }
    for n in [0i64, -1, 42, i64::MIN, i64::MAX] {
        assert_eq!(int_text(n), n.to_string());
    }
}

#[test]
fn padding_counts_characters() {
    assert_eq!(padded_left("ab", 5, '0'), "000ab");
    assert_eq!(padded_left("abcdef", 5, ' '), "abcdef");
    assert_eq!(padded_right("é", 3), format!("{:<3}", "é"));
}

#[test]
fn trimming_agrees_with_std() {
    for s in ["", " ", "a", "  a b \n", "\u{2003}x\u{85}", "\t\n"] {
        assert_eq!(trim(s), s.trim());
    }
    assert_eq!(without_trailing("log\n\n", '\n'), "log");
    assert_eq!(without_trailing("\n\n", '\n'), "");
}

#[test]
fn case_is_ascii_case() {
    for (a, b) in [("boot", "BOOT"), ("É", "é"), ("a", "ab"), ("", ""), ("k", "\u{212a}")] {
        assert_eq!(eq_ignore_case(a, b), a.eq_ignore_ascii_case(b), "{a} {b}");
    }
    assert_eq!(to_upper("xaa-é"), "XAA-é");
}

#[test]
fn search_agrees_with_std() {
    let parts = ["", "a", "ab", "ba", "bab", "abab", "c"];
    for s in parts {
        for p in parts {
            assert_eq!(contains(s, p), s.contains(p), "{s} {p}");
            assert_eq!(begins_with(s, p), s.starts_with(p), "{s} {p}");
            assert_eq!(ends_with(s, p), s.ends_with(p), "{s} {p}");
            assert_eq!(same_text(s, p), s == p, "{s} {p}");
        }
    }
}

#[test]
fn lists_agree_with_std() {
    let words = vec!["a".to_string(), "".to_string(), "c".to_string()];
    assert_eq!(join(&words, ", "), words.join(", "));
    assert_eq!(join(&Vec::new(), ", "), "");
    for b in [vec![], vec![7u8], vec![0, 255, 16]] {
        assert_eq!(byte_list_text(&b), format!("{b:?}"));
    }
}

#[test]
fn invalid_utf8_is_replaced() {
    assert_eq!(text_from_utf8(b"plain"), "plain");
    assert_eq!(text_from_utf8("é".as_bytes()), "é");
    assert_eq!(text_from_utf8(&[0x41, 0xff, 0x42]), "A\u{fffd}B");
}
