//! Numbers in words of the command line, held against std's parsers.

use thor::number::{parse_hex, parse_hex_u64, parse_i64};

const SAMPLES: [&str; 26] = [
    "", "+", "-", "0", "-0", "+7", "--1", "+-1", "12", " 12", "12 ", "1_000", "0x10", "9223372036854775807",
    "9223372036854775808", "-9223372036854775808", "-9223372036854775809", "00000000000000000000001",
    "ff", "FF", "ffffffffffffffff", "10000000000000000", "+a", "-a", "g", "\u{661}",
];

#[test]
fn decimals_agree_with_std() {
    for s in SAMPLES {
        assert_eq!(parse_i64(s), s.parse::<i64>().ok(), "{s:?}");
    }
}

#[test]
fn hex_numbers_agree_with_std() {
    for s in SAMPLES {
        assert_eq!(parse_hex_u64(s), u64::from_str_radix(s, 16).ok(), "{s:?}");
    }
}

#[test]
fn hex_addresses_take_a_prefix() {
    assert_eq!(parse_hex("0x85200000"), Ok(0x8520_0000));
    assert_eq!(parse_hex("0X1f"), Ok(0x1f));
    assert_eq!(parse_hex("1f"), Ok(0x1f));
    assert_eq!(parse_hex("0x"), Err("invalid hex address '0x'".to_string()));
    assert_eq!(parse_hex("0x0x1"), Err("invalid hex address '0x0x1'".to_string()));
}
