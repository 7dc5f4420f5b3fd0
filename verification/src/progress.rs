//! Presentation and safety helpers for a live flash: the progress bar, the human-readable byte
//! formatter, and the "is this a brick-prone partition" check.
//!
//! Fractions are rounded as binary floating-point numbers with 53-bit significands are, but are
//! computed in integers: a double is a significand and a negative exponent of two, and every
//! operation rounds to the nearest representable value, ties to even.

use vstd::arithmetic::div_mod::{lemma_div_is_ordered, lemma_fundamental_div_mod};
use vstd::arithmetic::power2::{lemma_pow2_adds, lemma_pow2_pos, lemma_pow2_unfold, pow2};
use vstd::prelude::*;
use vstd::string::StringExecFns;

use crate::text::{
    contains, contains_text, dec, dec_text, int_text, push_repeat, repeat, same_ignoring_case,
    stands_at, to_upper, upper,
};

verus! {

/// The significands of doubles lie below `2^53`.
pub const SIGNIFICAND_LIMIT: u128 = 0x20_0000_0000_0000;

/// `num / den`, rounded to the nearest integer, a tie to the even one.
pub open spec fn nearest_even(num: nat, den: nat) -> nat {
    let q = num / den;
    let r = num % den;
    if 2 * r < den {
        q
    } else if 2 * r > den {
        q + 1
    } else {
        q + q % 2
    }
}

/// How many low bits of `n` a 53-bit significand has no room for.
pub open spec fn excess_bits(n: nat) -> nat
    decreases n,
{
    if n < 0x20_0000_0000_0000 {
        0
    } else {
        1 + excess_bits(n / 2)
    }
}

/// The double nearest to the integer `n`.
pub open spec fn double_of(n: nat) -> nat {
    nearest_even(n, pow2(excess_bits(n))) * pow2(excess_bits(n))
}

/// How often `x` has to be doubled to reach `bound`.
pub open spec fn doublings(x: nat, bound: nat) -> nat
    decreases
            if x < bound {
                bound - x
            } else {
                0
            },
{
    if x == 0 || x >= bound {
        0
    } else {
        1 + doublings(2 * x, bound)
    }
}

/// A double between 0 and 1: `m / 2^e`.
pub struct Fraction {
    pub m: nat,
    pub e: nat,
}

/// The double nearest to `c / t`, for `c <= t`.
pub open spec fn quotient(c: nat, t: nat) -> Fraction {
    let e = doublings(c, t * 0x10_0000_0000_0000);
    Fraction { m: nearest_even(c * pow2(e), t), e }
}

/// The product of a fraction and an integer, as a double, rounded to an integer, a half up.
pub open spec fn scaled(f: Fraction, n: nat) -> nat {
    (2 * double_of(f.m * double_of(n)) + pow2(f.e)) / pow2(f.e + 1)
}

/// How much of `total` has been sent, as a double. Where there is nothing to send, all of it;
/// overshoot counts as all of it.
pub open spec fn sent_fraction(sent: int, total: int) -> Fraction {
    if total <= 0 {
        Fraction { m: 1, e: 0 }
    } else {
        let c = if sent < 0 {
            0
        } else if sent > total {
            total
        } else {
            sent
        };
        quotient(double_of(c as nat), double_of(total as nat))
    }
}

/// How many of `width` cells are filled.
pub open spec fn filled_cells(sent: int, total: int, width: nat) -> nat {
    let n = scaled(sent_fraction(sent, total), width);
    if n > width {
        width
    } else {
        n
    }
}

/// The percentage sent.
pub open spec fn percent(sent: int, total: int) -> nat {
    scaled(sent_fraction(sent, total), 100)
}

/// A progress bar of `width` cells with its percentage.
pub open spec fn bar_text(sent: int, total: int, width: nat) -> Seq<char> {
    let filled = filled_cells(sent, total, width);
    "["@ + repeat('#', filled as int) + repeat('-', width - filled) + "] "@ + dec(
        percent(sent, total) as int,
    ) + "%"@
}

proof fn lemma_nearest_even(num: nat, den: nat)
    requires
        den > 0,
    ensures
        nearest_even(num, den) * den <= num + den,
        nearest_even(num, den) <= num / den + 1,
        num / den * den <= num,
        num % den < den,
        2 * num <= 2 * (nearest_even(num, den) * den) + den,
        2 * (nearest_even(num, den) * den) <= 2 * num + den,
{
    lemma_fundamental_div_mod(num as int, den as int);
    let q = num / den;
    let r = num % den;
    let n = nearest_even(num, den);
    assert(q * den == den * q) by (nonlinear_arith);
    assert((q + 1) * den == den * q + den) by (nonlinear_arith);
}

/// Divide and round to the nearest integer, a tie to the even one.
fn divide_nearest(num: u128, den: u128) -> (r: u128)
    requires
        den > 0,
        num < 0x8000_0000_0000_0000_0000_0000_0000_0000,
        den < 0x4000_0000_0000_0000_0000_0000_0000_0000,
    ensures
        r == nearest_even(num as nat, den as nat),
{
    let q: u128 = num / den;
    let r: u128 = num % den;
    proof {
        lemma_nearest_even(num as nat, den as nat);
        lemma_fundamental_div_mod(num as int, den as int);
        assert(q <= num) by (nonlinear_arith)
            requires
                num == den * q + r,
                den > 0,
                r >= 0,
                q >= 0,
        ;
    }
    if 2 * r < den {
        q
    } else if 2 * r > den {
        q + 1
    } else {
        q + q % 2
    }
}

/// Round an integer to the nearest double.
fn round_to_double(n: u128) -> (r: u128)
    requires
        n <= 0x40_0000_0000_0000_0000_0000_0000_0000,
    ensures
        r == double_of(n as nat),
        n <= 2 * r,
        2 * r <= 3 * n,
{
    let mut high: u128 = n;
    let mut unit: u128 = 1;
    let ghost mut k: nat = 0;
    proof {
        vstd::arithmetic::power2::lemma2_to64();
    }
    while high >= SIGNIFICAND_LIMIT
        invariant
            n <= 0x40_0000_0000_0000_0000_0000_0000_0000,
            unit == pow2(k),
            unit > 0,
            unit * high <= n,
            n > 0 ==> high > 0,
            excess_bits(n as nat) == k + excess_bits(high as nat),
        decreases high,
    {
        proof {
            lemma_pow2_unfold(k + 1);
            let h2 = high as int / 2;
            assert(2 * unit * h2 <= n) by (nonlinear_arith)
                requires
                    unit * high <= n,
                    2 * h2 <= high,
                    unit > 0,
            ;
            assert(2 * unit <= n) by (nonlinear_arith)
                requires
                    2 * unit * h2 <= n,
                    h2 >= 1,
                    unit > 0,
            ;
            k = k + 1;
        }
        high = high / 2;
        unit = unit * 2;
    }
    proof {
        assert(excess_bits(n as nat) == k);
        lemma_nearest_even(n as nat, unit as nat);
        assert(n > 0 ==> unit <= n) by (nonlinear_arith)
            requires
                unit * high <= n,
                n > 0 ==> high > 0,
                unit > 0,
        ;
    }
    if n == 0 {
        assert(nearest_even(0, 1) == 0);
        return 0;
    }
    divide_nearest(n, unit) * unit
}

/// Divide two integers as doubles. The result is a significand and the power of two that it is
/// to be divided by.
fn divide(c: u128, t: u128) -> (r: (u128, u128))
    requires
        0 < t <= 0x1_0000_0000_0000_0000,
        c <= 3 * t,
    ensures
        r.0 == quotient(c as nat, t as nat).m,
        r.1 == pow2(quotient(c as nat, t as nat).e),
        r.0 <= 0x20_0000_0000_0000,
        0 < r.1 <= 0x20_0000_0000_0000_0000_0000_0000_0000,
{
    let bound: u128 = t * 0x10_0000_0000_0000;
    let mut x: u128 = c;
    let mut unit: u128 = 1;
    let ghost mut k: nat = 0;
    proof {
        vstd::arithmetic::power2::lemma2_to64();
    }
    if c == 0 {
        proof {
            let (zero, one) = (0nat, t as nat);
            assert(zero / one == 0 && zero % one == 0) by (nonlinear_arith)
                requires
                    zero == 0,
                    one > 0,
            ;
        }
        return (0, 1);
    }
    while x < bound
        invariant
            0 < t <= 0x1_0000_0000_0000_0000,
            bound == t * 0x10_0000_0000_0000,
            unit == pow2(k),
            x == c * unit,
            0 < unit <= x,
            c > 0,
            x < 2 * bound,
            doublings(c as nat, bound as nat) == k + doublings(x as nat, bound as nat),
        decreases 2 * bound - x,
    {
        proof {
            lemma_pow2_unfold(k + 1);
            assert(2 * (c * unit) == c * (2 * unit)) by (nonlinear_arith);
            k = k + 1;
        }
        x = 2 * x;
        unit = 2 * unit;
    }
    let m: u128 = divide_nearest(x, t);
    proof {
        lemma_nearest_even(x as nat, t as nat);
        let q = x as nat / t as nat;
        let tt = t as nat;
        assert(q < 0x20_0000_0000_0000) by (nonlinear_arith)
            requires
                q * tt <= x,
                x < tt * 0x20_0000_0000_0000,
        ;
        assert(bound as nat == t as nat * 0x10_0000_0000_0000);
        assert(c as nat * pow2(k) == x);
    }
    (m, unit)
}

/// Multiply a fraction by an integer as doubles, and round.
fn scale(m: u128, unit: u128, n: u128, f: Ghost<Fraction>) -> (r: u128)
    requires
        m == f@.m,
        unit == pow2(f@.e),
        m <= 0x20_0000_0000_0000,
        0 < unit <= 0x20_0000_0000_0000_0000_0000_0000_0000,
        n <= 0xffff_ffff_ffff_ffff,
    ensures
        r == scaled(f@, n as nat),
        r <= 0x80_0000_0000_0000 * n + 1,
{
    let d: u128 = round_to_double(n);
    proof {
        assert(m * d <= 0x20_0000_0000_0000 * d) by (nonlinear_arith)
            requires
                m <= 0x20_0000_0000_0000,
        ;
        lemma_pow2_unfold(f@.e + 1);
    }
    let p: u128 = round_to_double(m * d);
    let r: u128 = (2 * p + unit) / (2 * unit);
    proof {
        let num = 2 * p + unit;
        let den = 2 * unit;
        lemma_fundamental_div_mod(num as int, den as int);
        assert(r <= p + 1) by (nonlinear_arith)
            requires
                num == den * r + num % den,
                num == 2 * p + unit,
                den == 2 * unit,
                unit >= 1,
                p >= 0,
                num % den >= 0,
        ;
    }
    r
}

/// Both figures of a progress bar.
fn bar_figures(sent: i64, total: i64, width: usize) -> (r: (usize, u64))
    ensures
        r.0 == filled_cells(sent as int, total as int, width as nat),
        r.0 <= width,
        r.1 == percent(sent as int, total as int),
{
    let ghost f = sent_fraction(sent as int, total as int);
    let (m, unit): (u128, u128) = if total <= 0 {
        proof {
            vstd::arithmetic::power2::lemma2_to64();
        }
        (1, 1)
    } else {
        let c: i64 = if sent < 0 {
            0
        } else if sent > total {
            total
        } else {
            sent
        };
        let cd: u128 = round_to_double(c as u128);
        let td: u128 = round_to_double(total as u128);
        divide(cd, td)
    };
    let cells: u128 = scale(m, unit, width as u128, Ghost(f));
    let filled: usize = if cells > width as u128 {
        width
    } else {
        cells as usize
    };
    let pct: u128 = scale(m, unit, 100, Ghost(f));
    (filled, pct as u64)
}

/// A fixed-width text progress bar, e.g. `[####------] 40%`.
///
/// `width` is the number of bar cells. A non-positive `total` (nothing to send) renders as
/// full/100%, and `sent` is clamped to `total` so overshoot never draws past the end.
pub fn progress_bar(sent: i64, total: i64, width: usize) -> (s: String)
    ensures
        s@ == bar_text(sent as int, total as int, width as nat),
{
    let (filled, pct): (usize, u64) = bar_figures(sent, total, width);
    let mut s = String::from_str("[");
    push_repeat(&mut s, '#', filled);
    push_repeat(&mut s, '-', width - filled);
    s.append("] ");
    s.append(dec_text(pct).as_str());
    s.append("%");
    s
}

/// The words that mark a partition as brick-prone: the bootloader chain, the boot-config and
/// partition tables, and the encryption filesystem.
pub open spec fn critical_words() -> Seq<Seq<char>> {
    seq!["BOOTLOADER"@, "SBL"@, "XBL"@, "ABOOT"@, "PARAM"@, "PIT"@, "GPT"@, "EFS"@]
}

/// Whether a partition name holds one of the words, in whatever case.
pub open spec fn is_critical(name: Seq<char>) -> bool {
    exists|k: int|
        0 <= k < critical_words().len() && contains_text(
            upper(name),
            #[trigger] critical_words()[k],
        )
}

/// Whether flashing `name` wrong tends to *hard*-brick a device. Used to guard an extra
/// confirmation. Case-insensitive substring match.
pub fn is_critical_partition(name: &str) -> (r: bool)
    ensures
        r == is_critical(name@),
{
    let words: [&str; 8] = [
        "BOOTLOADER",
        "SBL",
        "XBL",
        "ABOOT",
        "PARAM",
        "PIT",
        "GPT",
        "EFS",
    ];
    let name_upper = to_upper(name);
    assert forall|k: int| 0 <= k < 8 implies words@[k]@ == critical_words()[k] by {}
    let mut k: usize = 0;
    while k < 8
        invariant
            k <= 8,
            words@.len() == 8,
            critical_words().len() == 8,
            name_upper@ == upper(name@),
            forall|j: int| 0 <= j < 8 ==> words@[j]@ == #[trigger] critical_words()[j],
            forall|j: int|
                0 <= j < k ==> !contains_text(upper(name@), #[trigger] critical_words()[j]),
        decreases 8 - k,
    {
        if contains(name_upper.as_str(), words[k]) {
            assert(contains_text(upper(name@), critical_words()[k as int]));
            return true;
        }
        k = k + 1;
    }
    false
}

/// A byte count of tenths of a unit.
pub open spec fn tenths_text(tenths: nat, unit: Seq<char>) -> Seq<char> {
    dec((tenths / 10) as int) + "."@ + dec((tenths % 10) as int) + unit
}

/// A byte count in B, KiB, MiB or GiB. The scaled units have one decimal: the nearest tenth of
/// the count as a double, a tie to the even one.
pub open spec fn bytes_text(n: int) -> Seq<char> {
    if n < 0x400 {
        dec(n) + " B"@
    } else if n < 0x10_0000 {
        tenths_text(nearest_even(10 * double_of(n as nat), 0x400), " KiB"@)
    } else if n < 0x4000_0000 {
        tenths_text(nearest_even(10 * double_of(n as nat), 0x10_0000), " MiB"@)
    } else {
        tenths_text(nearest_even(10 * double_of(n as nat), 0x4000_0000), " GiB"@)
    }
}

/// Format a count of `n` bytes in units of `unit` bytes.
fn in_units(n: i64, unit: u128, name: &str) -> (s: String)
    requires
        n > 0,
        0x400 <= unit <= 0x4000_0000,
    ensures
        s@ == tenths_text(nearest_even(10 * double_of(n as nat), unit as nat), name@),
{
    let d: u128 = round_to_double(n as u128);
    let tenths: u128 = divide_nearest(10 * d, unit);
    proof {
        lemma_nearest_even((10 * d) as nat, unit as nat);
        let q = (10 * d) as nat / unit as nat;
        assert(q <= 0x1000_0000_0000_0000) by (nonlinear_arith)
            requires
                q * unit <= 10 * d,
                10 * d <= 0x8_0000_0000_0000_0000,
                unit >= 0x400,
        ;
    }
    let mut s = dec_text((tenths / 10) as u64);
    s.append(".");
    s.append(dec_text((tenths % 10) as u64).as_str());
    s.append(name);
    s
}

/// Format a byte count as B / KiB / MiB / GiB with one decimal for the scaled units.
pub fn human_bytes(n: i64) -> (s: String)
    ensures
        s@ == bytes_text(n as int),
{
    if n < 0x400 {
        let mut s = int_text(n);
        s.append(" B");
        s
    } else if n < 0x10_0000 {
        in_units(n, 0x400, " KiB")
    } else if n < 0x4000_0000 {
        in_units(n, 0x10_0000, " MiB")
    } else {
        in_units(n, 0x4000_0000, " GiB")
    }
}

/// Rounding changes nothing where the quotient is whole.
proof fn lemma_nearest_even_exact(x: nat, d: nat)
    requires
        d > 0,
    ensures
        nearest_even(x * d, d) == x,
{
    assert((x * d) / d == x && (x * d) % d == 0) by (nonlinear_arith)
        requires
            d > 0,
    ;
}

/// An integer below `2^53` times a power of two is a double.
proof fn lemma_double_exact(w: nat, a: nat)
    requires
        w < 0x20_0000_0000_0000,
    ensures
        excess_bits(w * pow2(a)) <= a,
        double_of(w * pow2(a)) == w * pow2(a),
{
    lemma_excess_bits(w, a);
    let k = excess_bits(w * pow2(a));
    let x = w * pow2((a - k) as nat);
    lemma_pow2_adds((a - k) as nat, k);
    lemma_pow2_pos(k);
    assert(x * pow2(k) == w * (pow2((a - k) as nat) * pow2(k))) by (nonlinear_arith)
        requires
            x == w * pow2((a - k) as nat),
    ;
    lemma_nearest_even_exact(x, pow2(k));
}

proof fn lemma_excess_bits(w: nat, a: nat)
    requires
        w < 0x20_0000_0000_0000,
    ensures
        excess_bits(w * pow2(a)) <= a,
    decreases a,
{
    if a == 0 {
        vstd::arithmetic::power2::lemma2_to64();
    } else {
        lemma_pow2_unfold(a);
        let h = w * pow2((a - 1) as nat);
        assert(w * pow2(a) == 2 * h) by (nonlinear_arith)
            requires
                pow2(a) == 2 * pow2((a - 1) as nat),
                h == w * pow2((a - 1) as nat),
        ;
        lemma_excess_bits(w, (a - 1) as nat);
    }
}

/// Doubling `x` reaches `x * 2^n` after `n` steps.
proof fn lemma_doublings(x: nat, n: nat)
    requires
        x > 0,
    ensures
        doublings(x, x * pow2(n)) == n,
    decreases n,
{
    lemma_pow2_pos(n);
    if n == 0 {
        vstd::arithmetic::power2::lemma2_to64();
    } else {
        lemma_pow2_unfold(n);
        let h = pow2((n - 1) as nat);
        lemma_pow2_pos((n - 1) as nat);
        assert(x * pow2(n) == (2 * x) * h) by (nonlinear_arith)
            requires
                pow2(n) == 2 * h,
        ;
        assert(x < (2 * x) * h) by (nonlinear_arith)
            requires
                x > 0,
                h >= 1,
        ;
        lemma_doublings(2 * x, (n - 1) as nat);
    }
}

/// A fraction of one scales an integer below `2^53` to itself.
proof fn lemma_scaled_one(e: nat, n: nat)
    requires
        n < 0x20_0000_0000_0000,
    ensures
        scaled(Fraction { m: pow2(e), e }, n) == n,
{
    vstd::arithmetic::power2::lemma2_to64();
    lemma_double_exact(n, 0);
    lemma_double_exact(n, e);
    lemma_pow2_pos(e);
    lemma_pow2_unfold(e + 1);
    let p = pow2(e);
    assert(n * pow2(0) == n);
    assert(p * n == n * p) by (nonlinear_arith);
    assert((2 * (n * p) + p) / (2 * p) == n) by (nonlinear_arith)
        requires
            p > 0,
    ;
}

/// A finished flash shows a full bar and 100%, whether it sent exactly its bytes, overshot, or
/// had nothing to send.
pub proof fn law_done_is_full(sent: i64, total: i64, width: nat)
    requires
        total <= 0 || sent >= total,
        width < 0x20_0000_0000_0000,
    ensures
        filled_cells(sent as int, total as int, width) == width,
        percent(sent as int, total as int) == 100,
{
    vstd::arithmetic::power2::lemma2_to64();
    if total <= 0 {
        lemma_scaled_one(0, width);
        lemma_scaled_one(0, 100);
    } else {
        let t = double_of(total as nat);
        lemma_double_positive(total as nat);
        lemma_doublings(t, 52);
        lemma_pow2_adds(26, 26);
        assert(t * pow2(52) == pow2(52) * t) by (nonlinear_arith);
        lemma_nearest_even_exact(pow2(52), t);
        lemma_scaled_one(52, width);
        lemma_scaled_one(52, 100);
    }
}

proof fn lemma_double_positive(n: nat)
    requires
        n > 0,
    ensures
        double_of(n) > 0,
{
    let k = excess_bits(n);
    let d = pow2(k);
    lemma_pow2_pos(k);
    lemma_excess_below(n);
    let m = nearest_even(n, d);
    assert(n / d >= 1) by (nonlinear_arith)
        requires
            n >= d,
            d > 0,
    ;
    assert(m * d > 0) by (nonlinear_arith)
        requires
            m >= 1,
            d >= 1,
    ;
}

proof fn lemma_excess_below(n: nat)
    requires
        n > 0,
    ensures
        pow2(excess_bits(n)) <= n,
    decreases n,
{
    vstd::arithmetic::power2::lemma2_to64();
    if n >= 0x20_0000_0000_0000 {
        lemma_excess_below(n / 2);
        lemma_pow2_unfold(excess_bits(n));
    }
}

/// A flash that has sent nothing of something shows an empty bar and 0%.
pub proof fn law_start_is_empty(sent: i64, total: i64, width: nat)
    requires
        total > 0,
        sent <= 0,
    ensures
        filled_cells(sent as int, total as int, width) == 0,
        percent(sent as int, total as int) == 0,
{
    vstd::arithmetic::power2::lemma2_to64();
    lemma_double_exact(0, 0);
    let t = double_of(total as nat);
    lemma_double_positive(total as nat);
    assert(0nat / t == 0 && 0nat % t == 0) by (nonlinear_arith)
        requires
            t > 0,
    ;
    let f = quotient(0, t);
    assert(0 * pow2(0) == 0);
    assert(f == Fraction { m: 0, e: 0 });
    assert(0 * double_of(width) == 0);
    assert(0 * double_of(100) == 0);
    assert((2 * 0 + 1int) / 2 == 0);
}

proof fn lemma_nearest_even_grows(a: nat, b: nat, d: nat)
    requires
        a <= b,
        d > 0,
    ensures
        nearest_even(a, d) <= nearest_even(b, d),
{
    lemma_div_is_ordered(a as int, b as int, d as int);
    if a / d == b / d {
        lemma_fundamental_div_mod(a as int, d as int);
        lemma_fundamental_div_mod(b as int, d as int);
    }
}

/// A number has 53 bits above those that a significand has no room for.
proof fn lemma_excess_range(n: nat)
    ensures
        n < 0x20_0000_0000_0000 * pow2(excess_bits(n)),
        excess_bits(n) > 0 ==> n >= 0x10_0000_0000_0000 * pow2(excess_bits(n)),
    decreases n,
{
    vstd::arithmetic::power2::lemma2_to64();
    if n >= 0x20_0000_0000_0000 {
        lemma_excess_range(n / 2);
        lemma_pow2_unfold(excess_bits(n));
    }
}

proof fn lemma_excess_grows(a: nat, b: nat)
    requires
        a <= b,
    ensures
        excess_bits(a) <= excess_bits(b),
    decreases b,
{
    if a >= 0x20_0000_0000_0000 {
        lemma_excess_grows(a / 2, b / 2);
    }
}

/// Rounding to a double keeps the order.
proof fn lemma_double_grows(a: nat, b: nat)
    requires
        a <= b,
    ensures
        double_of(a) <= double_of(b),
{
    let (j, k) = (excess_bits(a), excess_bits(b));
    let (d, e) = (pow2(j), pow2(k));
    let (x, y) = (nearest_even(a, d), nearest_even(b, e));
    lemma_pow2_pos(j);
    lemma_pow2_pos(k);
    lemma_excess_grows(a, b);
    if j == k {
        lemma_nearest_even_grows(a, b, d);
        assert(x * d <= y * d) by (nonlinear_arith)
            requires
                x <= y,
        ;
    } else {
        lemma_excess_range(a);
        lemma_excess_range(b);
        lemma_nearest_even_exact(0x20_0000_0000_0000, d);
        lemma_nearest_even_grows(a, 0x20_0000_0000_0000 * d, d);
        lemma_nearest_even_exact(0x10_0000_0000_0000, e);
        lemma_nearest_even_grows(0x10_0000_0000_0000 * e, b, e);
        lemma_pow2_adds((k - j - 1) as nat, j + 1);
        lemma_pow2_pos((k - j - 1) as nat);
        lemma_pow2_unfold(j + 1);
        let f = pow2((k - j - 1) as nat);
        assert(e >= 2 * d) by (nonlinear_arith)
            requires
                e == f * (2 * d),
                f >= 1,
        ;
        assert(x * d <= y * e) by (nonlinear_arith)
            requires
                x <= 0x20_0000_0000_0000,
                y >= 0x10_0000_0000_0000,
                e >= 2 * d,
        ;
    }
}

/// The percentage is never more than 100.
pub proof fn law_percent_in_range(sent: i64, total: i64)
    ensures
        percent(sent as int, total as int) <= 100,
{
    vstd::arithmetic::power2::lemma2_to64();
    if total <= 0 || sent >= total {
        law_done_is_full(sent, total, 0);
    } else {
        let c = if sent < 0 {
            0nat
        } else {
            sent as nat
        };
        let (x, t) = (double_of(c), double_of(total as nat));
        lemma_double_positive(total as nat);
        lemma_double_grows(c, total as nat);
        let f = quotient(x, t);
        let p = pow2(f.e);
        lemma_pow2_pos(f.e);
        lemma_pow2_unfold(f.e + 1);
        assert(x * p <= p * t) by (nonlinear_arith)
            requires
                x <= t,
        ;
        lemma_nearest_even_exact(p, t);
        lemma_nearest_even_grows(x * p, p * t, t);
        lemma_double_exact(100, 0);
        lemma_double_exact(100, f.e);
        assert(100 * pow2(0) == 100);
        lemma_double_grows(f.m * 100, 100 * p);
        let product = double_of(f.m * 100);
        assert((2 * product + p) / (2 * p) <= 100) by (nonlinear_arith)
            requires
                product <= 100 * p,
                p > 0,
        ;
    }
}

/// A partition is brick-prone where one of these words stands in its name, in whatever case, and
/// nowhere else.
#[verifier::spinoff_prover]
pub proof fn law_critical_words_count_anywhere(name: Seq<char>)
    ensures
        is_critical(name) <==> exists|at: int, word: Seq<char>|
            {
                &&& word == "BOOTLOADER"@ || word == "SBL"@ || word == "XBL"@ || word == "ABOOT"@
                    || word == "PARAM"@ || word == "PIT"@ || word == "GPT"@ || word == "EFS"@
                &&& 0 <= at && at + word.len() <= name.len()
                &&& #[trigger] same_ignoring_case(name.subrange(at, at + word.len()), word)
            },
{
    reveal_strlit("BOOTLOADER");
    reveal_strlit("SBL");
    reveal_strlit("XBL");
    reveal_strlit("ABOOT");
    reveal_strlit("PARAM");
    reveal_strlit("PIT");
    reveal_strlit("GPT");
    reveal_strlit("EFS");
    let words = critical_words();
    assert forall|k: int| 0 <= k < 8 implies upper(#[trigger] words[k]) == words[k] by {
        assert(upper(words[k]) =~= words[k]);
    }
    if is_critical(name) {
        let k = choose|k: int|
            0 <= k < words.len() && contains_text(upper(name), #[trigger] words[k]);
        let word = words[k];
        let at = choose|at: int| stands_at(upper(name), word, at);
        assert(upper(name.subrange(at, at + word.len())) == upper(name).subrange(
            at,
            at + word.len(),
        ));
        assert(same_ignoring_case(name.subrange(at, at + word.len()), word));
    }
    if exists|at: int, word: Seq<char>|
        {
            &&& word == "BOOTLOADER"@ || word == "SBL"@ || word == "XBL"@ || word == "ABOOT"@ || word
                == "PARAM"@ || word == "PIT"@ || word == "GPT"@ || word == "EFS"@
            &&& 0 <= at && at + word.len() <= name.len()
            &&& #[trigger] same_ignoring_case(name.subrange(at, at + word.len()), word)
        } {
        let (at, word) = choose|at: int, word: Seq<char>|
            {
                &&& word == "BOOTLOADER"@ || word == "SBL"@ || word == "XBL"@ || word == "ABOOT"@
                    || word == "PARAM"@ || word == "PIT"@ || word == "GPT"@ || word == "EFS"@
                &&& 0 <= at && at + word.len() <= name.len()
                &&& #[trigger] same_ignoring_case(name.subrange(at, at + word.len()), word)
            };
        let k = if word == "BOOTLOADER"@ {
            0int
        } else if word == "SBL"@ {
            1
        } else if word == "XBL"@ {
            2
        } else if word == "ABOOT"@ {
            3
        } else if word == "PARAM"@ {
            4
        } else if word == "PIT"@ {
            5
        } else if word == "GPT"@ {
            6
        } else {
            7
        };
        assert(words[k] == word);
        assert(upper(name.subrange(at, at + word.len())) == upper(name).subrange(
            at,
            at + word.len(),
        ));
        assert(stands_at(upper(name), word, at));
    }
}

/// Rounding to a double moves a number by less than one part in `2^53`.
proof fn lemma_double_close(n: nat)
    ensures
        close(double_of(n) as int, n as int, 1),
{
    let k = excess_bits(n);
    lemma_excess_range(n);
    lemma_pow2_pos(k);
    if k == 0 {
        vstd::arithmetic::power2::lemma2_to64();
        lemma_nearest_even_exact(n, 1);
        assert(n * 1 == n);
    } else {
        lemma_nearest_even(n, pow2(k));
    }
}

/// Whether two numbers differ by at most `k` parts in `2^53`.
pub open spec fn close(a: int, b: int, k: int) -> bool {
    0x20_0000_0000_0000 * (a - b) <= k * b && 0x20_0000_0000_0000 * (b - a) <= k * b
}

proof fn lemma_close_scaled(a: int, b: int, k: int, x: int)
    requires
        close(a, b, k),
        x >= 0,
    ensures
        close(a * x, b * x, k),
{
    let n: int = 0x20_0000_0000_0000;
    assert(n * (a * x - b * x) <= k * (b * x)) by (nonlinear_arith)
        requires
            n * (a - b) <= k * b,
            x >= 0,
    ;
    assert(n * (b * x - a * x) <= k * (b * x)) by (nonlinear_arith)
        requires
            n * (b - a) <= k * b,
            x >= 0,
    ;
}

proof fn lemma_close_reduced(a: int, b: int, k: int, x: int)
    requires
        close(a * x, b * x, k),
        x > 0,
    ensures
        close(a, b, k),
{
    let n: int = 0x20_0000_0000_0000;
    assert(n * (a - b) <= k * b) by (nonlinear_arith)
        requires
            n * (a * x - b * x) <= k * (b * x),
            x > 0,
    ;
    assert(n * (b - a) <= k * b) by (nonlinear_arith)
        requires
            n * (b * x - a * x) <= k * (b * x),
            x > 0,
    ;
}

proof fn lemma_close_chain(a: int, b: int, c: int, j: int, k: int)
    requires
        close(a, b, j),
        close(b, c, k),
        c >= 0,
        0 <= j <= 16,
        0 <= k <= 16,
    ensures
        close(a, c, j + k + 1),
{
    let n: int = 0x20_0000_0000_0000;
    assert(j * (n * b) <= j * (n * c + k * c)) by (nonlinear_arith)
        requires
            n * (b - c) <= k * c,
            j >= 0,
    ;
    assert(n * (j * b) == j * (n * b)) by (nonlinear_arith);
    assert(j * (n * c + k * c) == n * (j * c) + (j * k) * c) by (nonlinear_arith);
    assert((j * k) * c <= 256 * c) by (nonlinear_arith)
        requires
            0 <= j <= 16,
            0 <= k <= 16,
            c >= 0,
    ;
    assert(j * b <= j * c + c);
    assert((j + k + 1) * c == j * c + k * c + c) by (nonlinear_arith);
}

proof fn lemma_close_reversed(a: int, b: int, k: int)
    requires
        close(a, b, k),
        b >= 0,
        0 <= k <= 16,
    ensures
        close(b, a, k + 1),
{
    let n: int = 0x20_0000_0000_0000;
    assert((k + 1) * (n * a) >= (k + 1) * (n * b - k * b)) by (nonlinear_arith)
        requires
            n * (b - a) <= k * b,
            k >= 0,
    ;
    assert((k + 1) * (n * b - k * b) == n * (k * b) + n * b - (k * (k + 1)) * b)
        by (nonlinear_arith);
    assert((k * (k + 1)) * b <= 272 * b) by (nonlinear_arith)
        requires
            0 <= k <= 16,
            b >= 0,
    ;
    assert(n * ((k + 1) * a) == (k + 1) * (n * a)) by (nonlinear_arith);
}

proof fn lemma_doublings_reach(x: nat, bound: nat)
    requires
        x > 0,
    ensures
        x * pow2(doublings(x, bound)) >= bound,
    decreases
            if x < bound {
                bound - x
            } else {
                0
            },
{
    vstd::arithmetic::power2::lemma2_to64();
    if x >= bound {
        assert(x * 1 == x);
    } else {
        let e = doublings(2 * x, bound);
        lemma_doublings_reach(2 * x, bound);
        lemma_pow2_unfold(e + 1);
        assert(x * (2 * pow2(e)) == (2 * x) * pow2(e)) by (nonlinear_arith);
    }
}

/// A quotient of doubles is close to the exact one.
proof fn lemma_quotient_close(c: nat, t: nat)
    requires
        t > 0,
    ensures
        close((quotient(c, t).m * t) as int, (c * pow2(quotient(c, t).e)) as int, 1),
{
    let f = quotient(c, t);
    let x = c * pow2(f.e);
    lemma_nearest_even(x, t);
    if c == 0 {
        assert(0 * pow2(f.e) == 0);
        lemma_nearest_even_exact(0, t);
        assert(0 * t == 0);
    } else {
        lemma_doublings_reach(c, t * 0x10_0000_0000_0000);
    }
}

/// Scaling what was sent of `t` to `w` gives `w * c / t`, rounded to the nearest integer.
proof fn lemma_scaled_close(c: nat, t: nat, w: nat)
    requires
        c <= t,
        t > 0,
        w <= 0x1_0000_0000,
    ensures
        ({
            let n = scaled(quotient(double_of(c), double_of(t)), w);
            400 * (n * t - w * c) <= 201 * t && 400 * (w * c - n * t) <= 201 * t
        }),
{
    let (c1, t1) = (double_of(c), double_of(t));
    let f = quotient(c1, t1);
    let e = pow2(f.e);
    let m = f.m;
    let p = double_of(m * w);
    let n = scaled(f, w);
    lemma_double_close(c);
    lemma_double_close(t);
    lemma_double_positive(t);
    lemma_quotient_close(c1, t1);
    lemma_double_close(m * w);
    vstd::arithmetic::power2::lemma2_to64();
    lemma_double_exact(w, 0);
    assert(w * pow2(0) == w);
    lemma_pow2_pos(f.e);
    lemma_pow2_unfold(f.e + 1);

    let a0 = p * (t * t1);
    let a1 = (m * w) * (t * t1);
    let a2 = (c1 * e) * (w * t);
    let a3 = c * (e * w * t);
    let a4 = t1 * (c * (e * w));
    assert(t * t1 >= 0 && w * t >= 0 && e * w * t >= 0 && c * (e * w) >= 0) by (nonlinear_arith)
        requires
            t >= 0,
            t1 >= 0,
            w >= 0,
            e >= 0,
            c >= 0,
    ;
    lemma_close_scaled(p as int, (m * w) as int, 1, (t * t1) as int);
    lemma_close_scaled((m * t1) as int, (c1 * e) as int, 1, (w * t) as int);
    assert((m * t1) * (w * t) == a1) by (nonlinear_arith)
        requires
            a1 == (m * w) * (t * t1),
    ;
    lemma_close_scaled(c1 as int, c as int, 1, (e * w * t) as int);
    assert(c1 * (e * w * t) == a2) by (nonlinear_arith)
        requires
            a2 == (c1 * e) * (w * t),
    ;
    lemma_close_reversed(t1 as int, t as int, 1);
    lemma_close_scaled(t as int, t1 as int, 2, (c * (e * w)) as int);
    assert(t * (c * (e * w)) == a3) by (nonlinear_arith)
        requires
            a3 == c * (e * w * t),
    ;
    assert(a2 >= 0 && a3 >= 0 && a4 >= 0);
    lemma_close_chain(a0 as int, a1 as int, a2 as int, 1, 1);
    lemma_close_chain(a0 as int, a2 as int, a3 as int, 3, 1);
    lemma_close_chain(a0 as int, a3 as int, a4 as int, 5, 2);
    assert(a0 == (p * t) * t1) by (nonlinear_arith)
        requires
            a0 == p * (t * t1),
    ;
    assert(a4 == (c * (e * w)) * t1) by (nonlinear_arith)
        requires
            a4 == t1 * (c * (e * w)),
    ;
    lemma_close_reduced((p * t) as int, (c * (e * w)) as int, 8, t1 as int);

    let (x, y) = ((p * t) as int, (c * (e * w)) as int);
    let et = e * t;
    assert(y <= 0x1_0000_0000 * et) by (nonlinear_arith)
        requires
            y == c * (e * w),
            et == e * t,
            0 <= c <= t,
            0 <= w <= 0x1_0000_0000,
            e >= 0,
    ;
    assert(400 * (x - y) <= et && 400 * (y - x) <= et);

    lemma_fundamental_div_mod((2 * p + e) as int, (2 * e) as int);
    assert((2 * e) * n <= 2 * p + e && 2 * p + e < (2 * e) * n + 2 * e);
    assert((2 * e) * n * t <= 2 * x + et && 2 * x <= (2 * e) * n * t + et) by (nonlinear_arith)
        requires
            (2 * e) * n <= 2 * p + e,
            2 * p + e < (2 * e) * n + 2 * e,
            x == p * t,
            et == e * t,
            t >= 0,
    ;
    let d = n * t - w * c;
    assert((2 * e) * n * t - 2 * y == (2 * e) * d) by (nonlinear_arith)
        requires
            y == c * (e * w),
            d == n * t - w * c,
    ;
    assert(200 * ((2 * e) * d) <= 201 * et && 200 * ((2 * e) * d) >= -(201 * et));
    assert(400 * d <= 201 * t && -400 * d <= 201 * t) by (nonlinear_arith)
        requires
            200 * ((2 * e) * d) <= 201 * et,
            200 * ((2 * e) * d) >= -(201 * et),
            et == e * t,
            e > 0,
    ;
}

/// The percentage is the share that was sent, to the nearest percent, and so is the filled part of
/// the bar, to the nearest cell. The roundings of doubles can move the middle between two numbers
/// by a hundredth at most.
pub proof fn law_bar_shows_the_share_sent(sent: i64, total: i64, width: nat)
    requires
        0 <= sent <= total,
        total > 0,
        width <= 0x1_0000_0000,
    ensures
        400 * (percent(sent as int, total as int) * total - 100 * sent) <= 201 * total,
        400 * (100 * sent - percent(sent as int, total as int) * total) <= 201 * total,
        filled_cells(sent as int, total as int, width) <= width,
        400 * (filled_cells(sent as int, total as int, width) * total - width * sent) <= 201 * total,
        400 * (width * sent - filled_cells(sent as int, total as int, width) * total) <= 201 * total,
{
    lemma_scaled_close(sent as nat, total as nat, 100);
    lemma_scaled_close(sent as nat, total as nat, width);
    let n = scaled(sent_fraction(sent as int, total as int), width);
    if n > width {
        assert(width * sent <= width * total && width * total <= n * total) by (nonlinear_arith)
            requires
                0 <= sent <= total,
                n > width,
        ;
    }
}

/// Whether a number of tenths of a unit is the nearest to a number of bytes. A count above `2^53`
/// is a double first, which may move it by one part in `2^53`.
pub open spec fn nearest_tenth(tenths: int, unit: int, n: int) -> bool {
    2 * (tenths * unit - 10 * n) <= unit + 20 * (n / 0x20_0000_0000_0000) && 2 * (10 * n - tenths
        * unit) <= unit + 20 * (n / 0x20_0000_0000_0000)
}

/// Whether a text shows a number of bytes in a unit of `unit` bytes, to the nearest tenth.
pub open spec fn shown_to_a_tenth(s: Seq<char>, n: int, unit: int, name: Seq<char>) -> bool {
    exists|tenths: int|
        #[trigger] nearest_tenth(tenths, unit, n) && s == dec(tenths / 10) + "."@ + dec(tenths % 10)
            + name
}

/// A byte count is shown in the largest unit that it reaches, to the nearest tenth of that unit.
pub proof fn law_byte_counts_are_shown_to_a_tenth(n: i64)
    ensures
        n < 1024 ==> bytes_text(n as int) == dec(n as int) + " B"@,
        1024 <= n < 1024 * 1024 ==> shown_to_a_tenth(
            bytes_text(n as int),
            n as int,
            1024,
            " KiB"@,
        ),
        1024 * 1024 <= n < 1024 * 1024 * 1024 ==> shown_to_a_tenth(
            bytes_text(n as int),
            n as int,
            0x10_0000,
            " MiB"@,
        ),
        1024 * 1024 * 1024 <= n ==> shown_to_a_tenth(
            bytes_text(n as int),
            n as int,
            0x4000_0000,
            " GiB"@,
        ),
{
    if n >= 1024 {
        let unit: nat = if n < 0x10_0000 {
            0x400
        } else if n < 0x4000_0000 {
            0x10_0000
        } else {
            0x4000_0000
        };
        let d = double_of(n as nat);
        lemma_double_close(n as nat);
        lemma_nearest_even(10 * d, unit);
        let tenths = nearest_even(10 * d, unit) as int;
        assert(nearest_tenth(tenths, unit as int, n as int));
    }
}

} // verus!
