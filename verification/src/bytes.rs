//! Little-endian integers in byte buffers, and comparison of buffers.

use vstd::arithmetic::div_mod::lemma_div_denominator;
use vstd::prelude::*;

verus! {

/// The 16-bit number whose two bytes, low byte first, start at `at`.
pub open spec fn u16_at(s: Seq<u8>, at: int) -> u16 {
    (s[at] + 0x100 * s[at + 1]) as u16
}

/// The 32-bit number whose four bytes, low byte first, start at `at`.
pub open spec fn u32_at(s: Seq<u8>, at: int) -> u32 {
    (s[at] + 0x100 * s[at + 1] + 0x1_0000 * s[at + 2] + 0x100_0000 * s[at + 3]) as u32
}

/// The 64-bit number whose eight bytes, low byte first, start at `at`.
pub open spec fn u64_at(s: Seq<u8>, at: int) -> u64 {
    (u32_at(s, at) + 0x1_0000_0000 * u32_at(s, at + 4)) as u64
}

/// The two's complement reading of a 16-bit pattern.
pub open spec fn signed16(u: u16) -> i16 {
    if u < 0x8000 {
        u as i16
    } else {
        (u - 0x1_0000) as i16
    }
}

/// The two's complement reading of a 32-bit pattern.
pub open spec fn signed32(u: u32) -> i32 {
    if u < 0x8000_0000 {
        u as i32
    } else {
        (u - 0x1_0000_0000) as i32
    }
}

/// The two's complement reading of a 64-bit pattern.
pub open spec fn signed64(u: u64) -> i64 {
    if u < 0x8000_0000_0000_0000 {
        u as i64
    } else {
        (u - 0x1_0000_0000_0000_0000) as i64
    }
}

/// The 32-bit pattern of a signed number.
pub open spec fn unsigned32(v: i32) -> u32 {
    if v >= 0 {
        v as u32
    } else {
        (v + 0x1_0000_0000) as u32
    }
}

/// The signed 16-bit number at `at`.
pub open spec fn i16_at(s: Seq<u8>, at: int) -> i16 {
    signed16(u16_at(s, at))
}

/// The signed 32-bit number at `at`.
pub open spec fn i32_at(s: Seq<u8>, at: int) -> i32 {
    signed32(u32_at(s, at))
}

/// The byte of weight `256^k` of a number, negative numbers in two's complement.
pub open spec fn byte_of(v: int, k: nat) -> u8
    decreases k,
{
    if k == 0 {
        (v % 0x100) as u8
    } else {
        byte_of(v / 0x100, (k - 1) as nat)
    }
}

/// The `n` low bytes of a number, low byte first.
pub open spec fn le_bytes(v: int, n: nat) -> Seq<u8> {
    Seq::new(n, |k: int| byte_of(v, k as nat))
}

/// How many bytes come before the first NUL of `s`: all of them where there is none.
pub open spec fn nul_len(s: Seq<u8>) -> nat
    decreases s.len(),
{
    if s.len() == 0 || s[0] == 0 {
        0
    } else {
        1 + nul_len(s.drop_first())
    }
}

/// `nul_len` is where the first NUL stands, or the length.
pub proof fn lemma_nul_len(s: Seq<u8>, n: nat)
    requires
        n <= s.len(),
        forall|j: int| 0 <= j < n ==> s[j] != 0,
        n < s.len() ==> s[n as int] == 0,
    ensures
        nul_len(s) == n,
    decreases n,
{
    if n > 0 {
        let t = s.drop_first();
        assert forall|j: int| 0 <= j < n - 1 implies t[j] != 0 by {
            assert(t[j] == s[j + 1]);
        }
        lemma_nul_len(t, (n - 1) as nat);
    }
}

/// The 32-bit number at `at`, read back from the bytes of `v`, is `v`.
pub proof fn lemma_i32_round_trip(s: Seq<u8>, at: int, v: i32)
    requires
        0 <= at,
        at + 4 <= s.len(),
        s.subrange(at, at + 4) == le_bytes(v as int, 4),
    ensures
        i32_at(s, at) == v,
{
    let b = s.subrange(at, at + 4);
    assert(b[0] == s[at] && b[1] == s[at + 1] && b[2] == s[at + 2] && b[3] == s[at + 3]);
    lemma_bytes_of_4(v as int);
    let u = unsigned32(v) as int;
    assert(v as int % 0x1_0000_0000 == u) by {
        if v < 0 {
            assert((u - 0x1_0000_0000) % 0x1_0000_0000 == u % 0x1_0000_0000);
        }
    }
}

/// The four low bytes of a number, put together again, are the number modulo `2^32`.
#[verifier::spinoff_prover]
pub proof fn lemma_bytes_of_4(v: int)
    ensures
        byte_of(v, 0) + 0x100 * byte_of(v, 1) + 0x1_0000 * byte_of(v, 2) + 0x100_0000 * byte_of(
            v,
            3,
        ) == v % 0x1_0000_0000,
{
    reveal_with_fuel(byte_of, 4);
    let a = v / 0x100;
    let b = a / 0x100;
    let c = b / 0x100;
    assert(v == 0x100 * a + v % 0x100);
    assert(a == 0x100 * b + a % 0x100);
    assert(b == 0x100 * c + b % 0x100);
    assert(c == 0x100 * (c / 0x100) + c % 0x100);
    let low = byte_of(v, 0) + 0x100 * byte_of(v, 1) + 0x1_0000 * byte_of(v, 2) + 0x100_0000
        * byte_of(v, 3);
    assert(v == 0x1_0000_0000 * (c / 0x100) + low);
    assert(0 <= low < 0x1_0000_0000);
}

/// Read the 16-bit number at `at`.
pub fn read_u16(b: &[u8], at: usize) -> (r: u16)
    requires
        at + 2 <= b.len(),
    ensures
        r == u16_at(b@, at as int),
{
    b[at] as u16 + 0x100 * (b[at + 1] as u16)
}

/// Read the 32-bit number at `at`.
pub fn read_u32(b: &[u8], at: usize) -> (r: u32)
    requires
        at + 4 <= b.len(),
    ensures
        r == u32_at(b@, at as int),
{
    b[at] as u32 + 0x100 * (b[at + 1] as u32) + 0x1_0000 * (b[at + 2] as u32) + 0x100_0000 * (b[at
        + 3] as u32)
}

/// Read the 64-bit number at `at`.
pub fn read_u64(b: &[u8], at: usize) -> (r: u64)
    requires
        at + 8 <= b.len(),
    ensures
        r == u64_at(b@, at as int),
{
    read_u32(b, at) as u64 + 0x1_0000_0000 * (read_u32(b, at + 4) as u64)
}

/// Read a 16-bit pattern in two's complement.
pub fn to_signed16(u: u16) -> (r: i16)
    ensures
        r == signed16(u),
{
    if u < 0x8000 {
        u as i16
    } else {
        (u as i32 - 0x1_0000) as i16
    }
}

/// Read a 32-bit pattern in two's complement.
pub fn to_signed32(u: u32) -> (r: i32)
    ensures
        r == signed32(u),
{
    if u < 0x8000_0000 {
        u as i32
    } else {
        (u as i64 - 0x1_0000_0000) as i32
    }
}

/// Read a 64-bit pattern in two's complement.
pub fn to_signed64(u: u64) -> (r: i64)
    ensures
        r == signed64(u),
{
    if u < 0x8000_0000_0000_0000 {
        u as i64
    } else {
        (u as i128 - 0x1_0000_0000_0000_0000) as i64
    }
}

/// The 32-bit pattern of a signed number.
pub fn to_unsigned32(v: i32) -> (r: u32)
    ensures
        r == unsigned32(v),
{
    if v >= 0 {
        v as u32
    } else {
        (v as i64 + 0x1_0000_0000) as u32
    }
}

/// How many bytes come before the first NUL.
pub fn nul_position(b: &[u8]) -> (n: usize)
    ensures
        n == nul_len(b@),
        n <= b@.len(),
{
    let mut n: usize = 0;
    while n < b.len() && b[n] != 0
        invariant
            n <= b@.len(),
            forall|j: int| 0 <= j < n ==> b@[j] != 0,
        decreases b@.len() - n,
    {
        n = n + 1;
    }
    proof {
        lemma_nul_len(b@, n as nat);
    }
    n
}

/// Whether two buffers hold the same bytes.
pub fn same_bytes(a: &[u8], b: &[u8]) -> (r: bool)
    ensures
        r == (a@ == b@),
{
    let r = a.len() == b.len() && starts_with(a, b);
    proof {
        if r {
            assert(a@.subrange(0, b@.len() as int) == a@);
        } else if a@ == b@ {
            assert(a@.subrange(0, a@.len() as int) == a@);
        }
    }
    r
}

/// Whether `data` begins with `prefix`.
pub fn starts_with(data: &[u8], prefix: &[u8]) -> (r: bool)
    ensures
        r == prefix@.is_prefix_of(data@),
{
    if prefix.len() > data.len() {
        return false;
    }
    let mut i: usize = 0;
    while i < prefix.len()
        invariant
            i <= prefix@.len() <= data@.len(),
            forall|j: int| 0 <= j < i ==> prefix@[j] == data@[j],
        decreases prefix@.len() - i,
    {
        if prefix[i] != data[i] {
            return false;
        }
        i = i + 1;
    }
    assert(prefix@ == data@.subrange(0, prefix@.len() as int));
    true
}

/// The two bytes at `at` are those of `v`, low byte first.
pub open spec fn holds16(s: Seq<u8>, at: int, v: int) -> bool {
    &&& 0 <= at && at + 2 <= s.len()
    &&& 0 <= v < 0x1_0000
    &&& s[at] == v % 0x100
    &&& s[at + 1] == v / 0x100
}

/// The four bytes at `at` are those of `v`, low byte first.
pub open spec fn holds32(s: Seq<u8>, at: int, v: int) -> bool {
    &&& 0 <= at && at + 4 <= s.len()
    &&& 0 <= v < 0x1_0000_0000
    &&& s[at] == v % 0x100
    &&& s[at + 1] == v / 0x100 % 0x100
    &&& s[at + 2] == v / 0x1_0000 % 0x100
    &&& s[at + 3] == v / 0x100_0000
}

/// The eight bytes at `at` are those of `v`, low byte first.
pub open spec fn holds64(s: Seq<u8>, at: int, v: int) -> bool {
    &&& 0 <= at && at + 8 <= s.len()
    &&& 0 <= v < 0x1_0000_0000_0000_0000
    &&& s[at] == v % 0x100
    &&& s[at + 1] == v / 0x100 % 0x100
    &&& s[at + 2] == v / 0x1_0000 % 0x100
    &&& s[at + 3] == v / 0x100_0000 % 0x100
    &&& s[at + 4] == v / 0x1_0000_0000 % 0x100
    &&& s[at + 5] == v / 0x100_0000_0000 % 0x100
    &&& s[at + 6] == v / 0x1_0000_0000_0000 % 0x100
    &&& s[at + 7] == v / 0x100_0000_0000_0000
}

/// The bits of a signed number of `2^n == modulus` patterns, as an unsigned number.
pub open spec fn pattern(v: int, modulus: int) -> int {
    if v < 0 {
        v + modulus
    } else {
        v
    }
}

/// A 16-bit number is read from its bytes, and nothing else is.
pub proof fn law_16_bits_are_read_back(s: Seq<u8>, at: int, v: u16)
    requires
        0 <= at && at + 2 <= s.len(),
    ensures
        holds16(s, at, v as int) <==> u16_at(s, at) == v,
{
}

/// A signed 16-bit number is read from its bytes, in two's complement.
pub proof fn law_signed_16_bits_are_read_back(s: Seq<u8>, at: int, v: i16)
    requires
        holds16(s, at, pattern(v as int, 0x1_0000)),
    ensures
        i16_at(s, at) == v,
{
}

/// A 32-bit number is read from its bytes, and nothing else is.
pub proof fn law_32_bits_are_read_back(s: Seq<u8>, at: int, v: u32)
    requires
        0 <= at && at + 4 <= s.len(),
    ensures
        holds32(s, at, v as int) <==> u32_at(s, at) == v,
{
}

/// A signed 32-bit number is read from its bytes, in two's complement.
pub proof fn law_signed_32_bits_are_read_back(s: Seq<u8>, at: int, v: i32)
    requires
        holds32(s, at, pattern(v as int, 0x1_0000_0000)),
    ensures
        i32_at(s, at) == v,
{
    law_32_bits_are_read_back(s, at, pattern(v as int, 0x1_0000_0000) as u32);
}

/// A 64-bit number is read from its bytes.
pub proof fn law_64_bits_are_read_back(s: Seq<u8>, at: int, v: u64)
    requires
        holds64(s, at, v as int),
    ensures
        u64_at(s, at) == v,
{
    let low = v as int % 0x1_0000_0000;
    let high = v as int / 0x1_0000_0000;
    lemma_low_half(s, at, v as int);
    lemma_high_half(s, at, v as int);
    law_32_bits_are_read_back(s, at, low as u32);
    law_32_bits_are_read_back(s, at + 4, high as u32);
}

/// A signed 64-bit number is read from its bytes, in two's complement.
pub proof fn law_signed_64_bits_are_read_back(s: Seq<u8>, at: int, v: i64)
    requires
        holds64(s, at, pattern(v as int, 0x1_0000_0000_0000_0000)),
    ensures
        signed64(u64_at(s, at)) == v,
{
    law_64_bits_are_read_back(s, at, pattern(v as int, 0x1_0000_0000_0000_0000) as u64);
}

proof fn lemma_low_half(s: Seq<u8>, at: int, v: int)
    requires
        holds64(s, at, v),
    ensures
        holds32(s, at, v % 0x1_0000_0000),
{
    let w = v as u64;
    assert(w % 0x1_0000_0000 % 0x100 == w % 0x100 && w % 0x1_0000_0000 / 0x100 % 0x100 == w / 0x100
        % 0x100 && w % 0x1_0000_0000 / 0x1_0000 % 0x100 == w / 0x1_0000 % 0x100 && w
        % 0x1_0000_0000 / 0x100_0000 == w / 0x100_0000 % 0x100) by (bit_vector);
}

proof fn lemma_high_half(s: Seq<u8>, at: int, v: int)
    requires
        holds64(s, at, v),
    ensures
        holds32(s, at + 4, v / 0x1_0000_0000),
{
    lemma_div_denominator(v, 0x1_0000_0000, 0x100);
    lemma_div_denominator(v, 0x1_0000_0000, 0x1_0000);
    lemma_div_denominator(v, 0x1_0000_0000, 0x100_0000);
}

} // verus!
