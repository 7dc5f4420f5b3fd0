//! Reading numbers that a user typed: byte counts in decimal and addresses in hex.

use vstd::prelude::*;
use vstd::string::StringExecFns;

use crate::text::{
    chars_of, dec, digit_number, law_decimal_stands_for_its_number, law_numeral_stands_for_its_number,
    number_of, numeral,
};

verus! {

/// The value of a digit in base `base`, if the character is one.
pub open spec fn digit_value(c: char, base: int) -> Option<int> {
    let u = c as u32 as int;
    let v = if 0x30 <= u <= 0x39 {
        u - 0x30
    } else if 0x61 <= u <= 0x7a {
        u - 0x61 + 10
    } else if 0x41 <= u <= 0x5a {
        u - 0x41 + 10
    } else {
        base
    };
    if v < base {
        Some(v)
    } else {
        None
    }
}

/// The number that a text of digits stands for. A text without digits, or with anything else in
/// it, stands for none.
pub open spec fn digits_value(s: Seq<char>, base: int) -> Option<int>
    decreases s.len(),
{
    if s.len() == 0 {
        None
    } else {
        match digit_value(s.last(), base) {
            None => None,
            Some(d) => if s.len() == 1 {
                Some(d)
            } else {
                match digits_value(s.drop_last(), base) {
                    None => None,
                    Some(v) => Some(base * v + d),
                }
            },
        }
    }
}

/// The signed 64-bit number that a text stands for: decimal digits with at most one sign before
/// them.
pub open spec fn decimal_i64(s: Seq<char>) -> Option<i64> {
    let negative = s.len() > 0 && s[0] == '-';
    let signed = negative || (s.len() > 0 && s[0] == '+');
    let digits = if signed {
        s.drop_first()
    } else {
        s
    };
    match digits_value(digits, 10) {
        None => None,
        Some(v) => {
            let n = if negative {
                -v
            } else {
                v
            };
            if i64::MIN <= n <= i64::MAX {
                Some(n as i64)
            } else {
                None
            }
        },
    }
}

/// The unsigned 64-bit number that a text stands for in base `base`: digits of either case with at
/// most one plus sign before them.
pub open spec fn radix_u64(s: Seq<char>, base: int) -> Option<u64> {
    let digits = if s.len() > 0 && s[0] == '+' {
        s.drop_first()
    } else {
        s
    };
    match digits_value(digits, base) {
        None => None,
        Some(v) => if v <= u64::MAX {
            Some(v as u64)
        } else {
            None
        },
    }
}

/// The unsigned 64-bit number that a text stands for in hex.
pub open spec fn hex_u64(s: Seq<char>) -> Option<u64> {
    radix_u64(s, 16)
}

/// Digits stand for numbers that are not negative.
proof fn lemma_digits_nonnegative(s: Seq<char>, base: int)
    requires
        base >= 2,
    ensures
        digits_value(s, base) matches Some(v) ==> v >= 0,
    decreases s.len(),
{
    if s.len() > 1 {
        lemma_digits_nonnegative(s.drop_last(), base);
        match digits_value(s.drop_last(), base) {
            Some(v) => {
                assert(base * v >= 0) by (nonlinear_arith)
                    requires
                        base >= 2,
                        v >= 0,
                ;
            },
            None => {},
        }
    }
}

/// A text stands for a number no smaller than its beginning does, and for none where its
/// beginning does not.
proof fn lemma_digits_prefix(s: Seq<char>, base: int, n: int)
    requires
        base >= 2,
        0 < n <= s.len(),
    ensures
        digits_value(s.take(n), base) is None ==> digits_value(s, base) is None,
        digits_value(s, base) matches Some(v) ==> (digits_value(s.take(n), base) matches Some(w) && w
            <= v),
    decreases s.len() - n,
{
    if n < s.len() {
        let t = s.take(n + 1);
        assert(t.drop_last() == s.take(n));
        lemma_digits_nonnegative(s.take(n), base);
        match digits_value(s.take(n), base) {
            Some(w) => {
                assert(base * w >= w) by (nonlinear_arith)
                    requires
                        base >= 2,
                        w >= 0,
                ;
            },
            None => {},
        }
        lemma_digits_prefix(s, base, n + 1);
    } else {
        assert(s.take(n) == s);
    }
}

fn char_digit(c: char, base: u32) -> (r: Option<u32>)
    requires
        2 <= base <= 36,
    ensures
        r matches Some(d) ==> digit_value(c, base as int) == Some(d as int) && d < base,
        r is None ==> digit_value(c, base as int) is None,
{
    let u: u32 = c as u32;
    let v: u32 = if 0x30 <= u && u <= 0x39 {
        u - 0x30
    } else if 0x61 <= u && u <= 0x7a {
        u - 0x61 + 10
    } else if 0x41 <= u && u <= 0x5a {
        u - 0x41 + 10
    } else {
        base
    };
    if v < base {
        Some(v)
    } else {
        None
    }
}

/// The value of the digits from `from` on, if there are any, they are all digits, and the value
/// is no more than `limit`.
fn parse_digits(chars: &Vec<char>, from: usize, base: u32, limit: u64) -> (r: Option<u64>)
    requires
        from <= chars@.len(),
        2 <= base <= 36,
    ensures
        ({
            let value = digits_value(chars@.skip(from as int), base as int);
            match r {
                Some(v) => value == Some(v as int) && v <= limit,
                None => value is None || value->0 > limit,
            }
        }),
{
    let ghost s = chars@.skip(from as int);
    if from == chars.len() {
        return None;
    }
    let mut v: u64 = 0;
    let mut i: usize = from;
    while i < chars.len()
        invariant
            from <= i <= chars@.len(),
            from < chars@.len(),
            2 <= base <= 36,
            s == chars@.skip(from as int),
            v <= limit,
            i == from ==> v == 0,
            i > from ==> digits_value(s.take(i - from), base as int) == Some(v as int),
        decreases chars@.len() - i,
    {
        let ghost t = s.take(i - from + 1);
        proof {
            assert(t.last() == chars@[i as int]);
            assert(t.drop_last() == s.take(i - from));
            lemma_digits_prefix(s, base as int, i - from + 1);
        }
        let d: u32 = match char_digit(chars[i], base) {
            Some(d) => d,
            None => return None,
        };
        assert(base as int * v as int <= 36 * 0xffff_ffff_ffff_ffff) by (nonlinear_arith)
            requires
                base <= 36,
                v <= 0xffff_ffff_ffff_ffff,
        ;
        let wide: u128 = base as u128 * v as u128;
        let next: u128 = wide + d as u128;
        assert(digits_value(t, base as int) == Some(next as int));
        if next > limit as u128 {
            return None;
        }
        v = next as u64;
        i = i + 1;
    }
    assert(s.take(i - from) == s);
    Some(v)
}

/// Parse a signed decimal number.
pub fn parse_i64(s: &str) -> (r: Option<i64>)
    ensures
        r == decimal_i64(s@),
{
    let chars = chars_of(s);
    let negative = chars.len() > 0 && chars[0] == '-';
    let signed = negative || (chars.len() > 0 && chars[0] == '+');
    let from: usize = if signed {
        1
    } else {
        0
    };
    let limit: u64 = if negative {
        0x8000_0000_0000_0000
    } else {
        0x7fff_ffff_ffff_ffff
    };
    proof {
        if signed {
            assert(chars@.skip(1) == s@.drop_first());
        } else {
            assert(chars@.skip(0) == s@);
        }
        lemma_digits_nonnegative(chars@.skip(from as int), 10);
    }
    match parse_digits(&chars, from, 10, limit) {
        None => None,
        Some(v) => if negative {
            Some((-(v as i128)) as i64)
        } else {
            Some(v as i64)
        },
    }
}

/// Parse an unsigned number in base `base`.
pub fn parse_radix_u64(s: &str, base: u32) -> (r: Option<u64>)
    requires
        2 <= base <= 36,
    ensures
        r == radix_u64(s@, base as int),
{
    let chars = chars_of(s);
    let from: usize = if chars.len() > 0 && chars[0] == '+' {
        1
    } else {
        0
    };
    proof {
        if from == 1 {
            assert(chars@.skip(1) == s@.drop_first());
        } else {
            assert(chars@.skip(0) == s@);
        }
        lemma_digits_nonnegative(chars@.skip(from as int), base as int);
    }
    parse_digits(&chars, from, base, 0xffff_ffff_ffff_ffff)
}

/// Parse an unsigned hex number.
pub fn parse_hex_u64(s: &str) -> (r: Option<u64>)
    ensures
        r == hex_u64(s@),
{
    parse_radix_u64(s, 16)
}

/// An address without its `0x` or `0X`.
pub open spec fn without_hex_prefix(s: Seq<char>) -> Seq<char> {
    if s.len() >= 2 && s[0] == '0' && (s[1] == 'x' || s[1] == 'X') {
        s.skip(2)
    } else {
        s
    }
}

/// The address that a text stands for, or what is wrong with it.
pub open spec fn address_of(s: Seq<char>) -> Result<u64, Seq<char>> {
    match hex_u64(without_hex_prefix(s)) {
        Some(v) => Ok(v),
        None => Err("invalid hex address '"@ + s + "'"@),
    }
}

/// A result with its error text, by content.
pub open spec fn or_text<A>(r: Result<A, String>) -> Result<A, Seq<char>> {
    match r {
        Ok(a) => Ok(a),
        Err(e) => Err(e@),
    }
}

/// Parse a hex address, with or without a `0x` prefix.
pub fn parse_hex(s: &str) -> (r: Result<u64, String>)
    ensures
        or_text(r) == address_of(s@),
{
    let chars = chars_of(s);
    let prefixed = chars.len() >= 2 && chars[0] == '0' && (chars[1] == 'x' || chars[1] == 'X');
    let from: usize = if prefixed {
        2
    } else {
        0
    };
    let digits = crate::text::text_of(&chars, from, chars.len());
    assert(digits@ == without_hex_prefix(s@));
    match parse_hex_u64(digits.as_str()) {
        Some(v) => Ok(v),
        None => {
            let mut m = String::from_str("invalid hex address '");
            m.append(s);
            m.append("'");
            Err(m)
        },
    }
}

/// Whether a text is made of one or more digits of base `base`, letters being of either case.
pub open spec fn all_digits(s: Seq<char>, base: int) -> bool {
    s.len() > 0 && forall|i: int| 0 <= i < s.len() ==> 0 <= digit_number(#[trigger] s[i]) < base
}

/// Digits are read as the number they stand for, and a text that has anything else in it is not
/// read.
pub proof fn law_digits_are_read_as_their_number(s: Seq<char>, base: int)
    requires
        2 <= base <= 36,
    ensures
        all_digits(s, base) ==> digits_value(s, base) == Some(number_of(s, base)),
        !all_digits(s, base) ==> digits_value(s, base) is None,
    decreases s.len(),
{
    if s.len() > 0 {
        let t = s.drop_last();
        lemma_digit(s.last(), base);
        law_digits_are_read_as_their_number(t, base);
        if all_digits(s, base) {
            assert(0 <= digit_number(s[s.len() - 1]) < base);
            if t.len() > 0 {
                assert forall|i: int| 0 <= i < t.len() implies 0 <= digit_number(#[trigger] t[i])
                    < base by {
                    assert(t[i] == s[i]);
                }
            } else {
                assert(number_of(t, base) == 0);
                assert(0 * base == 0);
            }
            assert(number_of(t, base) * base == base * number_of(t, base)) by (nonlinear_arith);
        } else if 0 <= digit_number(s.last()) < base {
            if all_digits(t, base) {
                assert forall|i: int| 0 <= i < s.len() implies 0 <= digit_number(#[trigger] s[i])
                    < base by {
                    if i < t.len() {
                        assert(s[i] == t[i]);
                    }
                }
            }
        }
    }
}

proof fn lemma_digit(c: char, base: int)
    requires
        2 <= base <= 36,
    ensures
        0 <= digit_number(c) < base ==> digit_value(c, base) == Some(digit_number(c)),
        !(0 <= digit_number(c) < base) ==> digit_value(c, base) is None,
{
}

/// An unsigned number is read from its digits, with or without a plus sign, if it fits into 64 bits;
/// nothing else is read.
pub proof fn law_unsigned_numbers_are_read(digits: Seq<char>, base: int)
    requires
        2 <= base <= 36,
    ensures
        all_digits(digits, base) && number_of(digits, base) <= u64::MAX ==> radix_u64(digits, base)
            == Some(number_of(digits, base) as u64) && radix_u64(seq!['+'] + digits, base) == Some(
            number_of(digits, base) as u64,
        ),
        !all_digits(digits, base) || number_of(digits, base) > u64::MAX ==> radix_u64(
            seq!['+'] + digits,
            base,
        ) is None && (digits.len() > 0 && digits[0] == '+' || radix_u64(digits, base) is None),
{
    law_digits_are_read_as_their_number(digits, base);
    lemma_digits_nonnegative(digits, base);
    assert((seq!['+'] + digits).drop_first() == digits);
    if digits.len() > 0 && digits[0] == '+' {
        assert(digit_number('+') == -1);
        assert(!all_digits(digits, base)) by {
            assert(digit_number(digits[0]) == -1);
        }
    }
}

/// A signed decimal number is read from its text.
pub proof fn law_signed_numbers_are_read_back(n: i64)
    ensures
        decimal_i64(dec(n as int)) == Some(n),
        n >= 0 ==> decimal_i64(seq!['+'] + dec(n as int)) == Some(n),
{
    let s = dec(n as int);
    law_decimal_stands_for_its_number(n as int);
    let digits = if n < 0 {
        s.drop_first()
    } else {
        s
    };
    assert(all_digits(digits, 10)) by {
        if n < 0 {
            law_numeral_stands_for_its_number((-n) as nat, 10, false);
            assert(digits == numeral((-n) as nat, 10, false));
        }
    }
    law_digits_are_read_as_their_number(digits, 10);
    if n >= 0 {
        assert(0 <= digit_number(s[0]));
        assert((seq!['+'] + s).drop_first() == s);
    }
}

/// An address is read from its hex digits, with `0x` or `0X` before them or without.
pub proof fn law_addresses_are_read_back(digits: Seq<char>, a: u64)
    requires
        all_digits(digits, 16),
        number_of(digits, 16) == a,
        digits.len() >= 2 ==> digits[1] != 'x' && digits[1] != 'X',
    ensures
        address_of(digits) == Ok::<u64, Seq<char>>(a),
        address_of(seq!['0', 'x'] + digits) == Ok::<u64, Seq<char>>(a),
        address_of(seq!['0', 'X'] + digits) == Ok::<u64, Seq<char>>(a),
{
    law_unsigned_numbers_are_read(digits, 16);
    assert(without_hex_prefix(digits) == digits);
    assert(without_hex_prefix(seq!['0', 'x'] + digits) == digits);
    assert(without_hex_prefix(seq!['0', 'X'] + digits) == digits);
}

/// What is no address is refused, and shown in the error.
pub proof fn law_what_is_no_address_is_refused(s: Seq<char>)
    requires
        !all_digits(s, 16),
        s.len() > 0 ==> s[0] != '+' && !(s[0] == '0' && s.len() >= 2 && (s[1] == 'x' || s[1] == 'X')),
    ensures
        address_of(s) == Err::<u64, Seq<char>>("invalid hex address '"@ + s + "'"@),
{
    law_unsigned_numbers_are_read(s, 16);
}

} // verus!
