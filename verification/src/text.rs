//! Text: numbers in decimal and hex, padding, ASCII case, trimming, and search.
//!
//! A text is specified as the sequence of its characters.

use vstd::arithmetic::div_mod::{lemma_div_decreases, lemma_fundamental_div_mod};
use vstd::arithmetic::power::pow;
use vstd::prelude::*;
use vstd::string::StringExecFns;
use vstd::utf8::{
    decode_utf8, encode_utf8, encode_utf8_decode_utf8, encode_utf8_valid_utf8, is_ascii_chars,
    is_ascii_chars_encode_utf8, valid_utf8,
};

verus! {

/// `String::push` appends one character.
pub assume_specification[ String::push ](s: &mut String, c: char)
    ensures
        final(s)@ == old(s)@.push(c),
;

/// What `String::from_utf8_lossy` makes of bytes, as a function of the bytes.
pub uninterp spec fn lossy(bytes: Seq<u8>) -> Seq<char>;

/// `String::from_utf8_lossy`: the text of UTF-8 bytes. Bytes that are valid UTF-8 give the
/// text they encode; what stands in for invalid bytes is named, not spelled out.
#[verifier::external_body]
fn lossy_text(bytes: &[u8]) -> (r: String)
    ensures
        r@ == lossy(bytes@),
        valid_utf8(bytes@) ==> r@ == decode_utf8(bytes@),
{
    String::from_utf8_lossy(bytes).into_owned()
}

/// The text that bytes encode in UTF-8. Where they are not valid UTF-8, something stands in for
/// the parts that are not.
pub open spec fn utf8_text(bytes: Seq<u8>) -> Seq<char> {
    if valid_utf8(bytes) {
        decode_utf8(bytes)
    } else {
        lossy(bytes)
    }
}

/// The text that bytes encode in UTF-8.
pub fn text_from_utf8(bytes: &[u8]) -> (r: String)
    ensures
        r@ == utf8_text(bytes@),
{
    lossy_text(bytes)
}

/// The character of a digit, below ten a numeral and from ten on a letter.
pub open spec fn digit(d: int, upper: bool) -> char {
    if d < 10 {
        (0x30 + d) as char
    } else if upper {
        (0x41 + d - 10) as char
    } else {
        (0x61 + d - 10) as char
    }
}

/// The numeral of `n` in base `base`, without leading zeros.
pub open spec fn numeral(n: nat, base: nat, upper: bool) -> Seq<char>
    decreases n,
{
    if base < 2 || n < base {
        seq![digit(n as int, upper)]
    } else {
        proof {
            lemma_div_decreases(n as int, base as int);
        }
        numeral(n / base, base, upper).push(digit((n % base) as int, upper))
    }
}

/// A number in decimal.
pub open spec fn dec(n: int) -> Seq<char> {
    if n < 0 {
        seq!['-'] + numeral((-n) as nat, 10, false)
    } else {
        numeral(n as nat, 10, false)
    }
}

/// A number in lower-case hex.
pub open spec fn hex(n: nat) -> Seq<char> {
    numeral(n, 16, false)
}

/// A number in upper-case hex.
pub open spec fn hex_upper(n: nat) -> Seq<char> {
    numeral(n, 16, true)
}

/// `n` times the character `c`.
pub open spec fn repeat(c: char, n: int) -> Seq<char> {
    Seq::new(
        if n > 0 {
            n as nat
        } else {
            0
        },
        |i: int| c,
    )
}

/// `s` filled up on the left with `fill` to at least `width` characters.
pub open spec fn pad_left(s: Seq<char>, width: int, fill: char) -> Seq<char> {
    repeat(fill, width - s.len()) + s
}

/// `s` filled up on the right with blanks to at least `width` characters.
pub open spec fn pad_right(s: Seq<char>, width: int) -> Seq<char> {
    s + repeat(' ', width - s.len())
}

/// Whether a character has the Unicode property `White_Space`.
pub open spec fn is_space(c: char) -> bool {
    let u = c as u32;
    ||| 0x09 <= u <= 0x0d
    ||| u == 0x20
    ||| u == 0x85
    ||| u == 0xa0
    ||| u == 0x1680
    ||| 0x2000 <= u <= 0x200a
    ||| u == 0x2028
    ||| u == 0x2029
    ||| u == 0x202f
    ||| u == 0x205f
    ||| u == 0x3000
}

/// `s` without the whitespace that it begins with.
pub open spec fn trim_start(s: Seq<char>) -> Seq<char>
    decreases s.len(),
{
    if s.len() > 0 && is_space(s[0]) {
        trim_start(s.drop_first())
    } else {
        s
    }
}

/// `s` without the whitespace that it ends in.
pub open spec fn trim_end(s: Seq<char>) -> Seq<char>
    decreases s.len(),
{
    if s.len() > 0 && is_space(s.last()) {
        trim_end(s.drop_last())
    } else {
        s
    }
}

/// `s` without whitespace at either end.
pub open spec fn trimmed(s: Seq<char>) -> Seq<char> {
    trim_end(trim_start(s))
}

/// `s` without the characters `c` that it ends in.
pub open spec fn trim_end_char(s: Seq<char>, c: char) -> Seq<char>
    decreases s.len(),
{
    if s.len() > 0 && s.last() == c {
        trim_end_char(s.drop_last(), c)
    } else {
        s
    }
}

/// The upper-case form of an ASCII letter; other characters stay.
pub open spec fn upper_char(c: char) -> char {
    if 0x61 <= c as u32 <= 0x7a {
        (c as u32 - 0x20) as char
    } else {
        c
    }
}

/// `s` with its ASCII letters in upper case.
pub open spec fn upper(s: Seq<char>) -> Seq<char> {
    Seq::new(s.len(), |i: int| upper_char(s[i]))
}

/// Whether two texts differ at most in the case of ASCII letters.
pub open spec fn same_ignoring_case(a: Seq<char>, b: Seq<char>) -> bool {
    upper(a) == upper(b)
}

/// Whether `s` ends in `tail`.
pub open spec fn ends_in(s: Seq<char>, tail: Seq<char>) -> bool {
    tail.len() <= s.len() && s.subrange(s.len() - tail.len(), s.len() as int) == tail
}

/// Whether `part` stands in `s` from position `at` on.
pub open spec fn stands_at(s: Seq<char>, part: Seq<char>, at: int) -> bool {
    0 <= at && at + part.len() <= s.len() && s.subrange(at, at + part.len()) == part
}

/// Whether `part` stands anywhere in `s`.
pub open spec fn contains_text(s: Seq<char>, part: Seq<char>) -> bool {
    exists|at: int| stands_at(s, part, at)
}

/// The texts behind a list of strings.
pub open spec fn views(v: Seq<String>) -> Seq<Seq<char>> {
    Seq::new(v.len(), |i: int| v[i]@)
}

/// The texts of a list one after the other, with `sep` between them.
pub open spec fn joined(parts: Seq<Seq<char>>, sep: Seq<char>) -> Seq<char>
    decreases parts.len(),
{
    if parts.len() == 0 {
        Seq::empty()
    } else if parts.len() == 1 {
        parts[0]
    } else {
        joined(parts.drop_last(), sep) + sep + parts.last()
    }
}

/// A list of bytes as the `Debug` format shows it: decimal numbers in square brackets.
pub open spec fn byte_list(b: Seq<u8>) -> Seq<char> {
    seq!['['] + joined(Seq::new(b.len(), |i: int| dec(b[i] as int)), ", "@) + seq![']']
}

/// The characters of a text.
pub fn chars_of(s: &str) -> (v: Vec<char>)
    ensures
        v@ == s@,
{
    let mut v: Vec<char> = Vec::new();
    for c in it: s.chars()
        invariant
            v@ == it.seq().take(it.index() as int),
            it.seq() == s@,
    {
        v.push(c);
    }
    v
}

/// The text of the characters `from..to`.
pub fn text_of(chars: &Vec<char>, from: usize, to: usize) -> (s: String)
    requires
        from <= to <= chars@.len(),
    ensures
        s@ == chars@.subrange(from as int, to as int),
{
    let mut s = String::new();
    let mut i: usize = from;
    while i < to
        invariant
            from <= i <= to <= chars@.len(),
            s@ == chars@.subrange(from as int, i as int),
        decreases to - i,
    {
        s.push(chars[i]);
        i = i + 1;
        assert(chars@.subrange(from as int, i as int) == chars@.subrange(
            from as int,
            i - 1,
        ).push(chars@[i - 1]));
    }
    s
}

/// Whether two texts are the same.
pub fn same_text(a: &str, b: &str) -> (r: bool)
    ensures
        r == (a@ == b@),
{
    let r = crate::bytes::same_bytes(a.as_bytes(), b.as_bytes());
    proof {
        encode_utf8_decode_utf8(a@);
        encode_utf8_decode_utf8(b@);
    }
    r
}

fn digit_char(d: u8, uppercase: bool) -> (c: char)
    requires
        d < 16,
    ensures
        c == digit(d as int, uppercase),
{
    if d < 10 {
        (0x30 + d) as char
    } else if uppercase {
        (0x41 + (d - 10)) as char
    } else {
        (0x61 + (d - 10)) as char
    }
}

/// Append the numeral of `n` in base `base`.
pub fn push_numeral(s: &mut String, n: u64, base: u64, uppercase: bool)
    requires
        2 <= base <= 16,
    ensures
        final(s)@ == old(s)@ + numeral(n as nat, base as nat, uppercase),
    decreases n,
{
    if n < base {
        s.push(digit_char(n as u8, uppercase));
    } else {
        proof {
            lemma_div_decreases(n as int, base as int);
        }
        push_numeral(s, n / base, base, uppercase);
        s.push(digit_char((n % base) as u8, uppercase));
        assert(s@ == old(s)@ + numeral(n as nat, base as nat, uppercase));
    }
}

/// The number `n` in decimal.
pub fn dec_text(n: u64) -> (s: String)
    ensures
        s@ == dec(n as int),
{
    let mut s = String::new();
    push_numeral(&mut s, n, 10, false);
    assert(s@ == dec(n as int));
    s
}

/// The signed number `n` in decimal.
pub fn int_text(n: i64) -> (s: String)
    ensures
        s@ == dec(n as int),
{
    let mut s = String::new();
    if n < 0 {
        s.push('-');
        let m: u64 = if n == i64::MIN {
            0x8000_0000_0000_0000
        } else {
            (-n) as u64
        };
        push_numeral(&mut s, m, 10, false);
        assert(s@ == dec(n as int));
    } else {
        push_numeral(&mut s, n as u64, 10, false);
        assert(s@ == dec(n as int));
    }
    s
}

/// The number `n` in hex, upper or lower case.
pub fn hex_text(n: u64, uppercase: bool) -> (s: String)
    ensures
        s@ == numeral(n as nat, 16, uppercase),
{
    let mut s = String::new();
    push_numeral(&mut s, n, 16, uppercase);
    assert(s@ == numeral(n as nat, 16, uppercase));
    s
}

/// Append `n` times the character `c`.
pub fn push_repeat(s: &mut String, c: char, n: usize)
    ensures
        final(s)@ == old(s)@ + repeat(c, n as int),
{
    let mut i: usize = 0;
    while i < n
        invariant
            i <= n,
            s@ == old(s)@ + repeat(c, i as int),
        decreases n - i,
    {
        s.push(c);
        i = i + 1;
        assert(repeat(c, i as int) == repeat(c, i - 1).push(c));
    }
}

/// `s` filled up on the left with `fill`.
pub fn padded_left(s: &str, width: usize, fill: char) -> (r: String)
    ensures
        r@ == pad_left(s@, width as int, fill),
{
    let n: usize = s.unicode_len();
    let mut r = String::new();
    if n < width {
        push_repeat(&mut r, fill, width - n);
    }
    r.append(s);
    assert(r@ == pad_left(s@, width as int, fill));
    r
}

/// `s` filled up on the right with blanks.
pub fn padded_right(s: &str, width: usize) -> (r: String)
    ensures
        r@ == pad_right(s@, width as int),
{
    let n: usize = s.unicode_len();
    let mut r = String::new();
    r.append(s);
    if n < width {
        push_repeat(&mut r, ' ', width - n);
    }
    assert(r@ == pad_right(s@, width as int));
    r
}

/// Whether a character is whitespace.
pub fn is_space_char(c: char) -> (r: bool)
    ensures
        r == is_space(c),
{
    let u: u32 = c as u32;
    (0x09 <= u && u <= 0x0d) || u == 0x20 || u == 0x85 || u == 0xa0 || u == 0x1680 || (0x2000 <= u
        && u <= 0x200a) || u == 0x2028 || u == 0x2029 || u == 0x202f || u == 0x205f || u == 0x3000
}

/// `trim_start` drops the leading run of whitespace, of `n` characters.
pub proof fn lemma_trim_start(s: Seq<char>, n: int)
    requires
        0 <= n <= s.len(),
        forall|j: int| 0 <= j < n ==> is_space(s[j]),
        n < s.len() ==> !is_space(s[n]),
    ensures
        trim_start(s) == s.subrange(n, s.len() as int),
    decreases n,
{
    if n > 0 {
        let t = s.drop_first();
        assert forall|j: int| 0 <= j < n - 1 implies is_space(t[j]) by {
            assert(t[j] == s[j + 1]);
        }
        lemma_trim_start(t, n - 1);
        assert(t.subrange(n - 1, t.len() as int) == s.subrange(n, s.len() as int));
    } else {
        assert(s.subrange(0, s.len() as int) == s);
    }
}

/// `trim_end` drops the trailing run of whitespace, all behind position `n`.
proof fn lemma_trim_end(s: Seq<char>, n: int)
    requires
        0 <= n <= s.len(),
        forall|j: int| n <= j < s.len() ==> is_space(s[j]),
        n > 0 ==> !is_space(s[n - 1]),
    ensures
        trim_end(s) == s.subrange(0, n),
    decreases s.len() - n,
{
    if n < s.len() {
        let t = s.drop_last();
        lemma_trim_end(t, n);
        assert(t.subrange(0, n) == s.subrange(0, n));
    } else {
        assert(s.subrange(0, n) == s);
    }
}

/// `s` without whitespace at either end.
pub fn trim(s: &str) -> (r: String)
    ensures
        r@ == trimmed(s@),
{
    let chars = chars_of(s);
    let mut from: usize = 0;
    while from < chars.len() && is_space_char(chars[from])
        invariant
            from <= chars@.len(),
            forall|j: int| 0 <= j < from ==> is_space(chars@[j]),
        decreases chars@.len() - from,
    {
        from = from + 1;
    }
    let mut to: usize = chars.len();
    while from < to && is_space_char(chars[to - 1])
        invariant
            from <= to <= chars@.len(),
            forall|j: int| to <= j < chars@.len() ==> is_space(chars@[j]),
        decreases to - from,
    {
        to = to - 1;
    }
    proof {
        lemma_trim_start(s@, from as int);
        let t = s@.subrange(from as int, s@.len() as int);
        assert forall|j: int| to - from <= j < t.len() implies is_space(t[j]) by {
            assert(t[j] == s@[from + j]);
        }
        lemma_trim_end(t, to - from);
        assert(t.subrange(0, to - from) == s@.subrange(from as int, to as int));
    }
    text_of(&chars, from, to)
}

/// `trim_end_char` drops the trailing run of `c`, all behind position `n`.
proof fn lemma_trim_end_char(s: Seq<char>, c: char, n: int)
    requires
        0 <= n <= s.len(),
        forall|j: int| n <= j < s.len() ==> s[j] == c,
        n > 0 ==> s[n - 1] != c,
    ensures
        trim_end_char(s, c) == s.subrange(0, n),
    decreases s.len() - n,
{
    if n < s.len() {
        let t = s.drop_last();
        lemma_trim_end_char(t, c, n);
        assert(t.subrange(0, n) == s.subrange(0, n));
    } else {
        assert(s.subrange(0, n) == s);
    }
}

/// `s` without the characters `c` that it ends in.
pub fn without_trailing(s: &str, c: char) -> (r: String)
    ensures
        r@ == trim_end_char(s@, c),
{
    let chars = chars_of(s);
    let mut to: usize = chars.len();
    while 0 < to && chars[to - 1] == c
        invariant
            to <= chars@.len(),
            forall|j: int| to <= j < chars@.len() ==> chars@[j] == c,
        decreases to,
    {
        to = to - 1;
    }
    proof {
        lemma_trim_end_char(s@, c, to as int);
    }
    text_of(&chars, 0, to)
}

/// `s` with its ASCII letters in upper case.
pub fn to_upper(s: &str) -> (r: String)
    ensures
        r@ == upper(s@),
{
    let chars = chars_of(s);
    let mut r = String::new();
    let mut i: usize = 0;
    while i < chars.len()
        invariant
            i <= chars@.len(),
            chars@ == s@,
            r@ == upper(s@).take(i as int),
        decreases chars@.len() - i,
    {
        let u: u32 = chars[i] as u32;
        if 0x61 <= u && u <= 0x7a {
            let b: u8 = (u - 0x20) as u8;
            r.push(b as char);
        } else {
            r.push(chars[i]);
        }
        i = i + 1;
        assert(upper(s@).take(i as int) == upper(s@).take(i - 1).push(upper_char(s@[i - 1])));
    }
    assert(upper(s@).take(i as int) == upper(s@));
    r
}

/// Whether two texts differ at most in the case of ASCII letters.
pub fn eq_ignore_case(a: &str, b: &str) -> (r: bool)
    ensures
        r == same_ignoring_case(a@, b@),
{
    let ua = to_upper(a);
    let ub = to_upper(b);
    same_text(ua.as_str(), ub.as_str())
}

/// Whether `part` stands in `s` at position `at`.
fn matches_at(s: &Vec<char>, part: &Vec<char>, at: usize) -> (r: bool)
    requires
        at + part.len() <= s.len(),
    ensures
        r == stands_at(s@, part@, at as int),
{
    let mut i: usize = 0;
    while i < part.len()
        invariant
            i <= part@.len(),
            at + part.len() <= s.len(),
            forall|j: int| 0 <= j < i ==> s@[at + j] == part@[j],
        decreases part@.len() - i,
    {
        if s[at + i] != part[i] {
            proof {
                let w = s@.subrange(at as int, at + part@.len());
                assert(w[i as int] == s@[at + i]);
            }
            return false;
        }
        i = i + 1;
    }
    assert(s@.subrange(at as int, at + part@.len()) == part@);
    true
}

/// Whether `s` begins with `head`.
pub fn begins_with(s: &str, head: &str) -> (r: bool)
    ensures
        r == head@.is_prefix_of(s@),
{
    let cs = chars_of(s);
    let hs = chars_of(head);
    hs.len() <= cs.len() && matches_at(&cs, &hs, 0)
}

/// Whether `s` ends in `tail`.
pub fn ends_with(s: &str, tail: &str) -> (r: bool)
    ensures
        r == ends_in(s@, tail@),
{
    let cs = chars_of(s);
    let ts = chars_of(tail);
    ts.len() <= cs.len() && matches_at(&cs, &ts, cs.len() - ts.len())
}

/// Whether `part` stands anywhere in `s`.
pub fn contains(s: &str, part: &str) -> (r: bool)
    ensures
        r == contains_text(s@, part@),
{
    let cs = chars_of(s);
    let ps = chars_of(part);
    if ps.len() > cs.len() {
        return false;
    }
    let last: usize = cs.len() - ps.len();
    let mut at: usize = 0;
    while at <= last
        invariant
            cs@ == s@,
            ps@ == part@,
            last == cs@.len() - ps@.len(),
            at <= last + 1,
            forall|k: int| 0 <= k < at ==> !stands_at(s@, part@, k),
        decreases last + 1 - at,
    {
        if matches_at(&cs, &ps, at) {
            return true;
        }
        if at == last {
            assert forall|k: int| !stands_at(s@, part@, k) by {}
            return false;
        }
        at = at + 1;
    }
    false
}

/// The texts of a list one after the other, with `sep` between them.
pub fn join(parts: &Vec<String>, sep: &str) -> (r: String)
    ensures
        r@ == joined(views(parts@), sep@),
{
    let mut r = String::new();
    let ghost all = views(parts@);
    let mut i: usize = 0;
    while i < parts.len()
        invariant
            i <= parts@.len(),
            all == views(parts@),
            r@ == joined(all.take(i as int), sep@),
        decreases parts@.len() - i,
    {
        if i > 0 {
            r.append(sep);
        }
        r.append(parts[i].as_str());
        i = i + 1;
        proof {
            assert(all.take(i as int).drop_last() == all.take(i - 1));
            if i == 1 {
                assert(r@ == all[0]);
            }
        }
    }
    assert(all.take(i as int) == all);
    r
}

/// A list of bytes as the `Debug` format shows it.
pub fn byte_list_text(b: &[u8]) -> (r: String)
    ensures
        r@ == byte_list(b@),
{
    let mut parts: Vec<String> = Vec::new();
    let mut i: usize = 0;
    while i < b.len()
        invariant
            i <= b@.len(),
            parts@.len() == i,
            forall|j: int| 0 <= j < i ==> (#[trigger] parts@[j])@ == dec(b@[j] as int),
        decreases b@.len() - i,
    {
        parts.push(dec_text(b[i] as u64));
        i = i + 1;
    }
    let inner = join(&parts, ", ");
    let mut r = String::new();
    r.push('[');
    r.append(inner.as_str());
    r.push(']');
    assert(views(parts@) == Seq::new(b@.len(), |i: int| dec(b@[i] as int)));
    assert(r@ == byte_list(b@));
    r
}

/// The text of ASCII bytes has one character for each byte, of the same number.
pub proof fn law_ascii_text(bytes: Seq<u8>)
    requires
        forall|i: int| 0 <= i < bytes.len() ==> bytes[i] < 0x80,
    ensures
        utf8_text(bytes) == Seq::new(bytes.len(), |i: int| bytes[i] as char),
{
    let text = Seq::new(bytes.len(), |i: int| bytes[i] as char);
    assert forall|i: int| 0 <= i < text.len() implies 0 <= #[trigger] text[i] as nat && (
    text[i] as nat) < 128 by {
        assert(bytes[i] < 0x80);
    }
    assert(is_ascii_chars(text));
    is_ascii_chars_encode_utf8(text);
    assert(encode_utf8(text) == bytes);
    encode_utf8_decode_utf8(text);
    encode_utf8_valid_utf8(text);
}

/// The number that a digit stands for: `0` to `9`, then letters of either case.
pub open spec fn digit_number(c: char) -> int {
    if '0' <= c <= '9' {
        c as int - '0' as int
    } else if 'a' <= c <= 'z' {
        c as int - 'a' as int + 10
    } else if 'A' <= c <= 'Z' {
        c as int - 'A' as int + 10
    } else {
        -1
    }
}

/// The number that digits stand for in base `base`, the highest digit first.
pub open spec fn number_of(s: Seq<char>, base: int) -> int
    decreases s.len(),
{
    if s.len() == 0 {
        0
    } else {
        number_of(s.drop_last(), base) * base + digit_number(s.last())
    }
}

/// Whether a text is made of digits below `base`, with letters in the given case.
pub open spec fn is_digits(s: Seq<char>, base: int, upper: bool) -> bool {
    forall|i: int|
        0 <= i < s.len() ==> 0 <= digit_number(#[trigger] s[i]) < base && !(if upper {
            'a' <= s[i] <= 'z'
        } else {
            'A' <= s[i] <= 'Z'
        })
}

/// A numeral stands for its number, has only digits of its base, and begins with no zero but that of
/// the number 0.
pub proof fn law_numeral_stands_for_its_number(n: nat, base: nat, upper: bool)
    requires
        2 <= base <= 16,
    ensures
        number_of(numeral(n, base, upper), base as int) == n,
        is_digits(numeral(n, base, upper), base as int, upper),
        numeral(n, base, upper).len() > 0,
        n > 0 ==> numeral(n, base, upper)[0] != '0',
        n == 0 ==> numeral(n, base, upper) == seq!['0'],
    decreases n,
{
    let s = numeral(n, base, upper);
    if n < base {
        assert(s.drop_last() == Seq::<char>::empty());
        assert(number_of(s.drop_last(), base as int) == 0);
        assert(s.last() == digit(n as int, upper));
    } else {
        lemma_div_decreases(n as int, base as int);
        let t = numeral(n / base, base, upper);
        law_numeral_stands_for_its_number(n / base, base, upper);
        assert(n / base > 0) by (nonlinear_arith)
            requires
                n >= base,
                base >= 2,
        ;
        assert(s.drop_last() == t);
        lemma_fundamental_div_mod(n as int, base as int);
        assert(n / base * base == base * (n / base)) by (nonlinear_arith);
        assert forall|i: int| 0 <= i < s.len() implies 0 <= digit_number(#[trigger] s[i]) < base && !(
        if upper {
            'a' <= s[i] <= 'z'
        } else {
            'A' <= s[i] <= 'Z'
        }) by {
            if i < t.len() {
                assert(s[i] == t[i]);
            }
        }
    }
}

/// Two numbers that are not the same have different numerals.
pub proof fn law_numerals_differ(m: nat, n: nat, base: nat, upper: bool)
    requires
        2 <= base <= 16,
        numeral(m, base, upper) == numeral(n, base, upper),
    ensures
        m == n,
{
    law_numeral_stands_for_its_number(m, base, upper);
    law_numeral_stands_for_its_number(n, base, upper);
}

/// A decimal numeral stands for its number; a minus sign marks a negative one.
pub proof fn law_decimal_stands_for_its_number(n: int)
    ensures
        n >= 0 ==> number_of(dec(n), 10) == n && is_digits(dec(n), 10, false),
        n < 0 ==> dec(n)[0] == '-' && number_of(dec(n).drop_first(), 10) == -n && is_digits(
            dec(n).drop_first(),
            10,
            false,
        ),
        dec(n).len() > 0,
{
    if n < 0 {
        law_numeral_stands_for_its_number((-n) as nat, 10, false);
        assert(dec(n).drop_first() == numeral((-n) as nat, 10, false));
    } else {
        law_numeral_stands_for_its_number(n as nat, 10, false);
    }
}

/// Zeros in front of digits change nothing of the number they stand for.
pub proof fn law_leading_zeros_count_nothing(s: Seq<char>, width: int, base: int)
    ensures
        number_of(pad_left(s, width, '0'), base) == number_of(s, base),
        pad_left(s, width, '0').len() == if width > s.len() {
            width
        } else {
            s.len() as int
        },
    decreases s.len(),
{
    let padded = pad_left(s, width, '0');
    if s.len() == 0 {
        lemma_zeros(padded, base);
    } else {
        assert(padded.drop_last() == pad_left(s.drop_last(), width - 1, '0'));
        assert(padded.last() == s.last());
        law_leading_zeros_count_nothing(s.drop_last(), width - 1, base);
    }
}

proof fn lemma_zeros(s: Seq<char>, base: int)
    requires
        forall|i: int| 0 <= i < s.len() ==> s[i] == '0',
    ensures
        number_of(s, base) == 0,
    decreases s.len(),
{
    if s.len() > 0 {
        lemma_zeros(s.drop_last(), base);
        assert(0 * base == 0);
    }
}

/// A number below `base^k` has a numeral of no more than `k` digits.
pub proof fn lemma_numeral_len(n: nat, base: nat, k: nat, upper: bool)
    requires
        2 <= base,
        k >= 1,
        n < pow(base as int, k),
    ensures
        numeral(n, base, upper).len() <= k,
    decreases k,
{
    if n >= base {
        reveal(pow);
        if k == 1 {
            assert(pow(base as int, 0) == 1);
            assert(pow(base as int, 1) == base * pow(base as int, 0));
            assert(base * 1 == base);
        }
        let p = pow(base as int, (k - 1) as nat);
        assert(pow(base as int, k) == base * p);
        assert((n / base) < p) by (nonlinear_arith)
            requires
                n < base * p,
                base >= 2,
        ;
        lemma_numeral_len(n / base, base, (k - 1) as nat, upper);
    }
}

/// Two texts are the same but for case exactly where each pair of characters is the same or the two
/// cases of one ASCII letter.
pub proof fn law_case_is_all_that_differs(a: Seq<char>, b: Seq<char>)
    ensures
        same_ignoring_case(a, b) <==> a.len() == b.len() && forall|i: int|
            0 <= i < a.len() ==> {
                ||| #[trigger] a[i] == b[i]
                ||| 'a' <= a[i] <= 'z' && a[i] as int == b[i] as int + 0x20
                ||| 'a' <= b[i] <= 'z' && b[i] as int == a[i] as int + 0x20
            },
{
    if same_ignoring_case(a, b) {
        assert(upper(a).len() == a.len() && upper(b).len() == b.len());
        assert forall|i: int| 0 <= i < a.len() implies {
            ||| #[trigger] a[i] == b[i]
            ||| 'a' <= a[i] <= 'z' && a[i] as int == b[i] as int + 0x20
            ||| 'a' <= b[i] <= 'z' && b[i] as int == a[i] as int + 0x20
        } by {
            assert(upper(a)[i] == upper(b)[i]);
            lemma_case_of(a[i], b[i]);
        }
    } else if a.len() == b.len() && forall|i: int|
        0 <= i < a.len() ==> {
            ||| #[trigger] a[i] == b[i]
            ||| 'a' <= a[i] <= 'z' && a[i] as int == b[i] as int + 0x20
            ||| 'a' <= b[i] <= 'z' && b[i] as int == a[i] as int + 0x20
        } {
        assert forall|i: int| 0 <= i < a.len() implies upper(a)[i] == #[trigger] upper(b)[i] by {
            assert(a[i] == a[i]);
            lemma_case_of(a[i], b[i]);
        }
        assert(upper(a) == upper(b));
    }
}

proof fn lemma_case_of(c: char, d: char)
    ensures
        upper_char(c) == upper_char(d) <==> {
            ||| c == d
            ||| 'a' <= c <= 'z' && c as int == d as int + 0x20
            ||| 'a' <= d <= 'z' && d as int == c as int + 0x20
        },
{
}

/// Trimming takes whitespace off both ends and nothing else: what is left neither begins nor ends
/// with whitespace, and around it there was nothing but whitespace.
pub proof fn law_trimming(before: Seq<char>, core: Seq<char>, after: Seq<char>)
    requires
        forall|i: int| 0 <= i < before.len() ==> is_space(#[trigger] before[i]),
        forall|i: int| 0 <= i < after.len() ==> is_space(#[trigger] after[i]),
        core.len() > 0 ==> !is_space(core[0]) && !is_space(core.last()),
    ensures
        trimmed(before + core + after) == core,
{
    let s = before + core + after;
    if core.len() == 0 {
        assert forall|j: int| 0 <= j < s.len() implies is_space(s[j]) by {
            if j < before.len() {
                assert(s[j] == before[j]);
            } else {
                assert(s[j] == after[j - before.len()]);
            }
        }
        lemma_trim_start(s, s.len() as int);
        assert(trim_start(s) == Seq::<char>::empty());
        assert(trimmed(s) == core);
    } else {
        let n = before.len() as int;
        assert forall|j: int| 0 <= j < n implies is_space(s[j]) by {
            assert(s[j] == before[j]);
        }
        assert(s[n] == core[0]);
        lemma_trim_start(s, n);
        let t = trim_start(s);
        assert(t == core + after);
        assert forall|j: int| core.len() <= j < t.len() implies is_space(t[j]) by {
            assert(t[j] == after[j - core.len()]);
        }
        assert(t[core.len() - 1] == core.last());
        lemma_trim_end(t, core.len() as int);
        assert(t.subrange(0, core.len() as int) == core);
    }
}

/// A text contains what it is put together from.
pub proof fn lemma_contains_part(before: Seq<char>, part: Seq<char>, after: Seq<char>)
    ensures
        contains_text(before + part + after, part),
{
    let s = before + part + after;
    assert(s.subrange(before.len() as int, (before.len() + part.len()) as int) == part);
    assert(stands_at(s, part, before.len() as int));
}

/// A text contains what a part of it contains.
pub proof fn lemma_contains_within(
    before: Seq<char>,
    s: Seq<char>,
    after: Seq<char>,
    part: Seq<char>,
)
    requires
        contains_text(s, part),
    ensures
        contains_text(before + s + after, part),
{
    let at = choose|at: int| stands_at(s, part, at);
    let all = before + s + after;
    assert(all.subrange(before.len() + at, before.len() + at + part.len()) == part) by {
        assert(s.subrange(at, at + part.len()) == part);
        assert forall|j: int| 0 <= j < part.len() implies all[before.len() + at + j] == part[j] by {
            assert(s.subrange(at, at + part.len())[j] == part[j]);
        }
    }
    assert(stands_at(all, part, before.len() + at));
}

/// A list that is joined contains every one of its texts.
pub proof fn law_joined_texts_are_all_there(parts: Seq<Seq<char>>, sep: Seq<char>, i: int)
    requires
        0 <= i < parts.len(),
    ensures
        contains_text(joined(parts, sep), parts[i]),
    decreases parts.len(),
{
    let s = joined(parts, sep);
    let none = Seq::<char>::empty();
    if parts.len() == 1 {
        lemma_contains_part(none, parts[0], none);
        assert(none + parts[0] + none == s);
    } else if i == parts.len() - 1 {
        lemma_contains_part(joined(parts.drop_last(), sep) + sep, parts[i], none);
        assert(joined(parts.drop_last(), sep) + sep + parts[i] + none == s);
    } else {
        law_joined_texts_are_all_there(parts.drop_last(), sep, i);
        lemma_contains_within(none, joined(parts.drop_last(), sep), sep + parts.last(), parts[i]);
        assert(none + joined(parts.drop_last(), sep) + (sep + parts.last()) == s);
    }
}

/// A hex number filled up with zeros still stands for its number, in digits of one case.
pub proof fn law_padded_hex_stands_for_its_number(n: nat, width: int, uppercase: bool)
    ensures
        ({
            let s = pad_left(numeral(n, 16, uppercase), width, '0');
            number_of(s, 16) == n && is_digits(s, 16, uppercase) && s.len() >= width
        }),
{
    let digits = numeral(n, 16, uppercase);
    let s = pad_left(digits, width, '0');
    law_numeral_stands_for_its_number(n, 16, uppercase);
    law_leading_zeros_count_nothing(digits, width, 16);
    assert forall|i: int| 0 <= i < s.len() implies 0 <= digit_number(#[trigger] s[i]) < 16 && !(
    if uppercase {
        'a' <= s[i] <= 'z'
    } else {
        'A' <= s[i] <= 'Z'
    }) by {
        let gap = s.len() - digits.len();
        if i >= gap {
            assert(s[i] == digits[i - gap]);
        }
    }
}

/// A text that goes on contains what it contained, and what it goes on with.
pub proof fn lemma_contains_more(s: Seq<char>, tail: Seq<char>, part: Seq<char>)
    ensures
        contains_text(s, part) ==> contains_text(s + tail, part),
        contains_text(s + tail, tail),
{
    let none = Seq::<char>::empty();
    if contains_text(s, part) {
        lemma_contains_within(none, s, tail, part);
        assert(none + s + tail == s + tail);
    }
    lemma_contains_part(s, tail, none);
    assert(s + tail + none == s + tail);
}

/// Five pieces behind a text are one piece behind it.
pub proof fn lemma_regroup(
    s: Seq<char>,
    a: Seq<char>,
    b: Seq<char>,
    c: Seq<char>,
    d: Seq<char>,
    e: Seq<char>,
)
    ensures
        s + a + b + c + d + e == s + (a + b + c + d + e),
{
    assert(s + a + b + c + d + e =~= s + (a + b + c + d + e));
}

/// Four pieces behind a text are one piece behind it.
pub proof fn lemma_regroup_four(
    s: Seq<char>,
    a: Seq<char>,
    b: Seq<char>,
    c: Seq<char>,
    d: Seq<char>,
)
    ensures
        s + a + b + c + d == s + (a + b + c + d),
{
    assert(s + a + b + c + d =~= s + (a + b + c + d));
}

/// A text between two others is contained with what it contains, and so are they.
pub proof fn lemma_contains_all_three(
    head: Seq<char>,
    middle: Seq<char>,
    tail: Seq<char>,
    part: Seq<char>,
)
    ensures
        contains_text(head + middle + tail, head),
        contains_text(head + middle + tail, tail),
        contains_text(middle, part) ==> contains_text(head + middle + tail, part),
{
    let none = Seq::<char>::empty();
    lemma_contains_part(none, head, middle + tail);
    assert(none + head + (middle + tail) =~= head + middle + tail);
    lemma_contains_part(head + middle, tail, none);
    assert(head + middle + tail + none =~= head + middle + tail);
    if contains_text(middle, part) {
        lemma_contains_within(head, middle, tail, part);
    }
}

/// The characters that count as whitespace, by their numbers: tab to carriage return, the blank, next
/// line, the no-break space, and the blanks and separators of other scripts.
pub proof fn law_whitespace(c: char)
    ensures
        is_space(c) <==> seq![
            0x09int,
            0x0A,
            0x0B,
            0x0C,
            0x0D,
            0x20,
            0x85,
            0xA0,
            0x1680,
            0x2000,
            0x2001,
            0x2002,
            0x2003,
            0x2004,
            0x2005,
            0x2006,
            0x2007,
            0x2008,
            0x2009,
            0x200A,
            0x2028,
            0x2029,
            0x202F,
            0x205F,
            0x3000,
        ].contains(c as int),
{
    let all = seq![
        0x09int,
        0x0A,
        0x0B,
        0x0C,
        0x0D,
        0x20,
        0x85,
        0xA0,
        0x1680,
        0x2000,
        0x2001,
        0x2002,
        0x2003,
        0x2004,
        0x2005,
        0x2006,
        0x2007,
        0x2008,
        0x2009,
        0x200A,
        0x2028,
        0x2029,
        0x202F,
        0x205F,
        0x3000,
    ];
    let u = c as int;
    if is_space(c) {
        let i: int = if u <= 0x0D {
            u - 0x09
        } else if u == 0x20 {
            5
        } else if u == 0x85 {
            6
        } else if u == 0xA0 {
            7
        } else if u == 0x1680 {
            8
        } else if u <= 0x200A {
            u - 0x2000 + 9
        } else if u == 0x2028 {
            20
        } else if u == 0x2029 {
            21
        } else if u == 0x202F {
            22
        } else if u == 0x205F {
            23
        } else {
            24
        };
        assert(all[i] == u);
    }
}

} // verus!
