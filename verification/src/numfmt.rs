//! Human-readable sizes and durations.
//!
//! The reports print a byte count or a number of seconds scaled to the largest
//! fitting unit with two decimals, exactly as formatting the `f64` quotient
//! `value as f64 / unit as f64` with `{:.2}` does.  The computation is carried
//! out here in integers: the conversion of the value to the nearest `f64`,
//! the correctly rounded `f64` division, and the decimal rounding to two
//! places (ties to even, as the standard formatter does on the exact binary
//! value) are each stated as integer arithmetic.

use vstd::prelude::*;
use vstd::string::*;
use vstd::arithmetic::power2::*;
use crate::text::{decimal, digit_char, push_decimal, digit_to_char};

verus! {

/// Number of significant bits of an `f64` significand (with the hidden bit).
pub const SIGNIFICAND_BITS: u32 = 53;

/// The number of binary digits of `n` (0 for 0).
pub open spec fn bit_len(n: nat) -> nat
    decreases n,
{
    if n == 0 {
        0
    } else {
        1 + bit_len(n / 2)
    }
}

/// `n / d` rounded to the nearest integer, ties to the even neighbour.
pub open spec fn round_half_even(n: nat, d: nat) -> nat {
    let q = n / d;
    let r = n % d;
    if 2 * r > d || (2 * r == d && q % 2 == 1) {
        q + 1
    } else {
        q
    }
}

/// The integer value of the `f64` nearest to `s` (ties to even).
pub open spec fn nearest_f64_int(s: nat) -> nat {
    if bit_len(s) <= 53 {
        s
    } else {
        let k = (bit_len(s) - 53) as nat;
        round_half_even(s, pow2(k)) * pow2(k)
    }
}

/// The binary exponent `e` of the `f64` nearest to `n / d`, whose value is
/// `significand * 2^e` with a 53-bit significand.
pub open spec fn quotient_exponent(n: nat, d: nat) -> int {
    bit_len(n / d) - 53
}

/// The significand of the `f64` nearest to `n / d` (ties to even).
pub open spec fn quotient_significand(n: nat, d: nat) -> nat {
    let e = quotient_exponent(n, d);
    if e >= 0 {
        round_half_even(n, d * pow2(e as nat))
    } else {
        round_half_even(n * pow2((-e) as nat), d)
    }
}

/// The value `m * 2^e` in hundredths, rounded to the nearest, ties to even.
pub open spec fn hundredths(m: nat, e: int) -> nat {
    if e >= 0 {
        m * pow2(e as nat) * 100
    } else {
        round_half_even(m * 100, pow2((-e) as nat))
    }
}

/// The quotient `value as f64 / unit as f64`, in hundredths as `{:.2}` rounds it.
pub open spec fn scaled_hundredths(value: nat, unit: nat) -> nat {
    let n = nearest_f64_int(value);
    hundredths(quotient_significand(n, unit), quotient_exponent(n, unit))
}

/// A number of hundredths written with two decimals, such as `12.05`.
pub open spec fn two_decimals(h: nat) -> Seq<char> {
    decimal(h / 100) + seq!['.', digit_char((h % 100) / 10), digit_char(h % 10)]
}

/// Bytes in a kilobyte, a megabyte and a gigabyte (powers of 1024).
pub const KIB: u64 = 1024;
pub const MIB: u64 = 1048576;
pub const GIB: u64 = 1073741824;

/// Seconds in a minute, an hour and a day.
pub const MINUTE: u64 = 60;
pub const HOUR: u64 = 3600;
pub const DAY: u64 = 86400;

/// What `pretty_bytes` writes for `size`.
pub open spec fn pretty_bytes_text(size: nat) -> Seq<char> {
    if size >= GIB {
        two_decimals(scaled_hundredths(size, GIB as nat)) + " GB"@
    } else if size >= MIB {
        two_decimals(scaled_hundredths(size, MIB as nat)) + " MB"@
    } else if size >= KIB {
        two_decimals(scaled_hundredths(size, KIB as nat)) + " KB"@
    } else {
        decimal(size) + " B"@
    }
}

/// What `pretty_seconds` writes for `seconds`.
pub open spec fn pretty_seconds_text(seconds: nat) -> Seq<char> {
    if seconds >= DAY {
        two_decimals(scaled_hundredths(seconds, DAY as nat)) + " D"@
    } else if seconds >= HOUR {
        two_decimals(scaled_hundredths(seconds, HOUR as nat)) + " H"@
    } else if seconds >= MINUTE {
        two_decimals(scaled_hundredths(seconds, MINUTE as nat)) + " M"@
    } else {
        decimal(seconds) + " S"@
    }
}

// ---------------------------------------------------------------------------
// Lemmas
// ---------------------------------------------------------------------------

proof fn lemma_pow2_zero()
    ensures
        pow2(0) == 1,
{
    lemma2_to64();
}

/// Every number lies below 2 to the power of its bit length.
proof fn lemma_bit_len_upper(n: nat)
    ensures
        n < pow2(bit_len(n)),
    decreases n,
{
    lemma_pow2_zero();
    if n > 0 {
        lemma_bit_len_upper(n / 2);
        lemma_pow2_unfold(bit_len(n));
    }
}

/// A number below `2^k` has at most `k` bits.
proof fn lemma_bit_len_at_most(n: nat, k: nat)
    requires
        n < pow2(k),
    ensures
        bit_len(n) <= k,
    decreases n,
{
    lemma_pow2_zero();
    if n > 0 {
        assert(k > 0);
        lemma_pow2_unfold(k);
        lemma_bit_len_at_most(n / 2, (k - 1) as nat);
    }
}

/// Rounding a quotient moves it up by at most one.
proof fn lemma_round_half_even_bound(n: nat, d: nat, bound: nat)
    requires
        d > 0,
        n < d * bound,
    ensures
        round_half_even(n, d) <= bound,
{
    assert(n / d < bound) by (nonlinear_arith)
        requires
            d > 0,
            n < d * bound,
    {
        vstd::arithmetic::div_mod::lemma_fundamental_div_mod(n as int, d as int);
    }
}

/// The significand of a rounded quotient has at most 53 bits (it may reach `2^53`).
proof fn lemma_significand_bound(n: nat, d: nat)
    requires
        d > 0,
    ensures
        quotient_significand(n, d) <= pow2(53),
{
    let q = n / d;
    let l = bit_len(q);
    lemma_bit_len_upper(q);
    assert(n < d * pow2(l)) by (nonlinear_arith)
        requires
            d > 0,
            q == n / d,
            q < pow2(l),
    {
        vstd::arithmetic::div_mod::lemma_fundamental_div_mod(n as int, d as int);
    }
    let e = quotient_exponent(n, d);
    if e >= 0 {
        let pe = pow2(e as nat);
        lemma_pow2_pos(e as nat);
        lemma_pow2_adds(e as nat, 53);
        assert(l == e as nat + 53);
        assert(n < (d * pe) * pow2(53)) by (nonlinear_arith)
            requires
                n < d * pow2(l),
                pow2(l) == pe * pow2(53),
        ;
        assert(d * pe > 0) by (nonlinear_arith)
            requires
                d > 0,
                pe > 0,
        ;
        lemma_round_half_even_bound(n, d * pe, pow2(53));
    } else {
        let pe = pow2((-e) as nat);
        lemma_pow2_pos((-e) as nat);
        lemma_pow2_adds((-e) as nat, l);
        assert((-e) as nat + l == 53);
        assert(n * pe < d * pow2(53)) by (nonlinear_arith)
            requires
                n < d * pow2(l),
                pow2(53) == pe * pow2(l),
                pe > 0,
        ;
        lemma_round_half_even_bound(n * pe, d, pow2(53));
    }
}

// ---------------------------------------------------------------------------
// Executable arithmetic
// ---------------------------------------------------------------------------

/// The bit length of `n`.
fn bit_length(n: u128) -> (r: u32)
    ensures
        r == bit_len(n as nat),
        r <= 128,
{
    let mut cur = n;
    let mut r: u32 = 0;
    proof {
        assert(n < pow2(128)) by {
            lemma2_to64();
            lemma_pow2_adds(64, 64);
        }
        lemma_bit_len_at_most(n as nat, 128);
    }
    while cur > 0
        invariant
            bit_len(n as nat) == r + bit_len(cur as nat),
            bit_len(n as nat) <= 128,
        decreases cur,
    {
        cur = cur / 2;
        r = r + 1;
    }
    r
}

/// `2^k` fits in a `u128` for `k < 128`.
proof fn lemma_pow2_fits_u128(k: nat)
    requires
        k < 128,
    ensures
        pow2(k) <= u128::MAX,
        pow2(k) > 0,
{
    lemma2_to64();
    lemma_pow2_adds(64, 64);
    lemma_pow2_pos(k);
    vstd::arithmetic::power2::lemma_pow2_strictly_increases(k, 128);
    assert(pow2(128) == 0x1_0000_0000_0000_0000_0000_0000_0000_0000) by (nonlinear_arith)
        requires
            pow2(128) == pow2(64) * pow2(64),
            pow2(64) == 0x10000000000000000,
    ;
}

/// `2^k` for `k <= 100`.
fn power_of_two(k: u32) -> (p: u128)
    requires
        k <= 100,
    ensures
        p == pow2(k as nat),
        p > 0,
{
    let mut p: u128 = 1;
    let mut i: u32 = 0;
    proof {
        lemma_pow2_zero();
    }
    while i < k
        invariant
            i <= k <= 100,
            p == pow2(i as nat),
        decreases k - i,
    {
        proof {
            lemma_pow2_unfold((i + 1) as nat);
            lemma_pow2_fits_u128((i + 1) as nat);
        }
        p = p * 2;
        i = i + 1;
    }
    proof {
        lemma_pow2_pos(k as nat);
    }
    p
}

/// `n / d` rounded to the nearest integer, ties to even.
fn round_div_half_even(n: u128, d: u128) -> (r: u128)
    requires
        d > 0,
    ensures
        r == round_half_even(n as nat, d as nat),
{
    let q = n / d;
    let rem = n % d;
    if rem > d - rem || (rem == d - rem && q % 2 == 1) {
        proof {
            assert(q < n) by (nonlinear_arith)
                requires
                    d > 0,
                    q == n / d,
                    rem == n % d,
                    rem > 0,
            {
                vstd::arithmetic::div_mod::lemma_fundamental_div_mod(n as int, d as int);
            }
        }
        q + 1
    } else {
        q
    }
}

/// Bounds for rounding a 64-bit integer to 53 significant bits.
proof fn lemma_nearest_bounds(s: nat, k: nat, p: nat)
    requires
        s < pow2(64),
        bit_len(s) > 53,
        k == bit_len(s) - 53,
        p == pow2(k),
    ensures
        k <= 11,
        p > 0,
        round_half_even(s, p) * p <= pow2(64),
{
    lemma_bit_len_at_most(s, 64);
    lemma_bit_len_upper(s);
    lemma_pow2_adds(k, 53);
    lemma_pow2_pos(k);
    lemma_round_half_even_bound(s, p, pow2(53));
    lemma_pow2_adds(53, 11);
    if k < 11 {
        vstd::arithmetic::power2::lemma_pow2_strictly_increases(k, 11);
    }
    let m = round_half_even(s, p);
    assert(m * p <= pow2(53) * pow2(11)) by (nonlinear_arith)
        requires
            m <= pow2(53),
            p <= pow2(11),
    ;
}

/// The integer value of the `f64` nearest to `s`.
fn nearest_f64_value(s: u64) -> (v: u128)
    ensures
        v == nearest_f64_int(s as nat),
        v <= pow2(64),
{
    let l = bit_length(s as u128);
    proof {
        lemma2_to64();
    }
    if l <= SIGNIFICAND_BITS {
        s as u128
    } else {
        let k = l - SIGNIFICAND_BITS;
        proof {
            lemma_nearest_bounds(s as nat, k as nat, pow2(k as nat));
        }
        let p = power_of_two(k);
        let m = round_div_half_even(s as u128, p);
        m * p
    }
}

/// Bounds on the rounded quotient of a value of at most `2^64` by a unit of
/// at most `2^30`.
proof fn lemma_quotient_bounds(n: nat, unit: nat)
    requires
        n <= pow2(64),
        0 < unit <= pow2(30),
    ensures
        bit_len(n / unit) <= 65,
        quotient_significand(n, unit) <= pow2(53),
{
    lemma2_to64();
    lemma_pow2_adds(64, 1);
    assert(n / unit <= n) by (nonlinear_arith)
        requires
            unit > 0,
    ;
    lemma_bit_len_at_most(n / unit, 65);
    lemma_significand_bound(n, unit);
}

/// Bounds for the case of a quotient of at least `2^52`.
proof fn lemma_large_quotient_bounds(unit: nat, e: nat, m: nat)
    requires
        0 < unit <= pow2(30),
        e <= 12,
        m <= pow2(53),
    ensures
        0 < unit * pow2(e) <= u128::MAX,
        m * pow2(e) * 100 < pow2(80),
        pow2(80) <= u128::MAX,
{
    lemma2_to64();
    lemma_pow2_pos(65);
    lemma_pow2_fits_u128(80);
    lemma_pow2_pos(e);
    if e < 12 {
        vstd::arithmetic::power2::lemma_pow2_strictly_increases(e, 12);
    }
    lemma_pow2_adds(30, 12);
    lemma_pow2_adds(53, 12);
    lemma_pow2_adds(65, 15);
    lemma_pow2_fits_u128(42);
    let pe = pow2(e);
    assert(0 < unit * pe <= pow2(42)) by (nonlinear_arith)
        requires
            0 < unit <= pow2(30),
            0 < pe <= pow2(12),
            pow2(42) == pow2(30) * pow2(12),
    ;
    assert(m * pe <= pow2(65)) by (nonlinear_arith)
        requires
            m <= pow2(53),
            0 < pe <= pow2(12),
            pow2(65) == pow2(53) * pow2(12),
    ;
    assert(pow2(15) == 32768) by {
        lemma_pow2_unfold(15);
        lemma_pow2_unfold(14);
        lemma_pow2_unfold(13);
    }
    assert(m * pe * 100 < pow2(80)) by (nonlinear_arith)
        requires
            m * pe <= pow2(65),
            pow2(80) == pow2(65) * pow2(15),
            pow2(15) == 32768,
            pow2(65) > 0,
    ;
}

/// Bounds for the case of a quotient below `2^52`.
proof fn lemma_small_quotient_bounds(n: nat, neg_e: nat, m: nat)
    requires
        n <= pow2(64),
        neg_e <= 53,
        m <= pow2(53),
    ensures
        n * pow2(neg_e) <= u128::MAX,
        m * 100 < pow2(60),
        pow2(60) < pow2(80),
        pow2(60) <= u128::MAX,
{
    lemma2_to64();
    lemma_pow2_pos(neg_e);
    if neg_e < 53 {
        vstd::arithmetic::power2::lemma_pow2_strictly_increases(neg_e, 53);
    }
    lemma_pow2_adds(64, 53);
    lemma_pow2_fits_u128(117);
    let pe = pow2(neg_e);
    assert(n * pe <= pow2(117)) by (nonlinear_arith)
        requires
            n <= pow2(64),
            0 < pe <= pow2(53),
            pow2(117) == pow2(64) * pow2(53),
    ;
    lemma_pow2_adds(53, 7);
    assert(m * 100 < pow2(60)) by (nonlinear_arith)
        requires
            m <= pow2(53),
            pow2(60) == pow2(53) * pow2(7),
            pow2(7) == 128,
            pow2(53) > 0,
    ;
    vstd::arithmetic::power2::lemma_pow2_strictly_increases(60, 80);
    lemma_pow2_fits_u128(60);
}

/// Rounding a quotient by a positive divisor never exceeds the dividend.
proof fn lemma_round_half_even_at_most(n: nat, d: nat)
    requires
        d > 0,
    ensures
        round_half_even(n, d) <= n,
{
    vstd::arithmetic::div_mod::lemma_fundamental_div_mod(n as int, d as int);
    if n % d > 0 {
        assert(n / d < n) by (nonlinear_arith)
            requires
                d > 0,
                n % d > 0,
                n == d * (n / d) + n % d,
        ;
    } else {
        assert(n / d <= n) by (nonlinear_arith)
            requires
                d > 0,
                n == d * (n / d) + n % d,
        ;
    }
}

/// `value as f64 / unit as f64`, in hundredths as `{:.2}` rounds it.
fn scaled_value_hundredths(value: u64, unit: u64) -> (h: u128)
    requires
        0 < unit <= GIB,
    ensures
        h == scaled_hundredths(value as nat, unit as nat),
        h < pow2(80),
{
    let n = nearest_f64_value(value);
    let q = n / (unit as u128);
    let l = bit_length(q);
    proof {
        lemma2_to64();
        lemma_pow2_adds(30, 0);
        assert(pow2(30) == GIB);
        lemma_quotient_bounds(n as nat, unit as nat);
    }
    if l >= SIGNIFICAND_BITS {
        let e = l - SIGNIFICAND_BITS;
        proof {
            lemma_large_quotient_bounds(unit as nat, e as nat, quotient_significand(n as nat, unit as nat));
        }
        let pe = power_of_two(e);
        let m = round_div_half_even(n, (unit as u128) * pe);
        m * pe * 100
    } else {
        let neg_e = SIGNIFICAND_BITS - l;
        proof {
            lemma_small_quotient_bounds(n as nat, neg_e as nat, quotient_significand(n as nat, unit as nat));
        }
        let pe = power_of_two(neg_e);
        let m = round_div_half_even(n * pe, unit as u128);
        proof {
            lemma_round_half_even_at_most((m * 100) as nat, pe as nat);
        }
        round_div_half_even(m * 100, pe)
    }
}

/// Rounding a quotient is unchanged by scaling both of its terms.
proof fn lemma_round_half_even_scaled(a: nat, b: nat, c: nat)
    requires
        b > 0,
        c > 0,
    ensures
        round_half_even(a * c, b * c) == round_half_even(a, b),
{
    let q = a / b;
    let r = a % b;
    vstd::arithmetic::div_mod::lemma_fundamental_div_mod(a as int, b as int);
    assert(a * c == q * (b * c) + r * c) by (nonlinear_arith)
        requires
            a == b * q + r,
    ;
    assert(0 <= r * c < b * c) by (nonlinear_arith)
        requires
            0 <= r < b,
            c > 0,
    ;
    vstd::arithmetic::div_mod::lemma_fundamental_div_mod_converse(
        (a * c) as int,
        (b * c) as int,
        q as int,
        (r * c) as int,
    );
    assert((2 * (r * c) > b * c) == (2 * r > b)) by (nonlinear_arith)
        requires
            c > 0,
    ;
    assert((2 * (r * c) == b * c) == (2 * r == b)) by (nonlinear_arith)
        requires
            c > 0,
    ;
}

/// A multiple of the divisor rounds to its exact quotient.
proof fn lemma_round_half_even_exact(x: nat, d: nat)
    requires
        d > 0,
    ensures
        round_half_even(x * d, d) == x,
{
    vstd::arithmetic::div_mod::lemma_fundamental_div_mod_converse((x * d) as int, d as int, x as int, 0);
}

/// Sizes below `2^53` bytes are exact `f64` values and their quotient by a
/// power of two is exact too, so the number `pretty_bytes` shows is the size
/// in the unit rounded to the nearest hundredth (ties to even).
pub proof fn law_pretty_bytes_exact(size: nat, k: nat)
    requires
        1 <= k <= 30,
        pow2(k) <= size < pow2(53),
    ensures
        scaled_hundredths(size, pow2(k)) == round_half_even(size * 100, pow2(k)),
{
    let unit = pow2(k);
    lemma_pow2_pos(k);
    lemma_bit_len_at_most(size, 53);
    assert(nearest_f64_int(size) == size);
    let q = size / unit;
    lemma_pow2_adds(k, (53 - k) as nat);
    lemma_pow2_pos((53 - k) as nat);
    assert(q < pow2((53 - k) as nat)) by (nonlinear_arith)
        requires
            unit > 0,
            q == size / unit,
            size < unit * pow2((53 - k) as nat),
    {
        vstd::arithmetic::div_mod::lemma_fundamental_div_mod(size as int, unit as int);
    }
    lemma_bit_len_at_most(q, (53 - k) as nat);
    let e = quotient_exponent(size, unit);
    assert(e == bit_len(q) - 53);
    assert(e <= -(k as int));
    let t = (-e) as nat;
    let extra = (t - k) as nat;
    lemma_pow2_adds(extra, k);
    lemma_pow2_pos(extra);
    lemma_pow2_pos(t);
    assert(size * pow2(t) == (size * pow2(extra)) * unit) by (nonlinear_arith)
        requires
            pow2(t) == pow2(extra) * unit,
    ;
    lemma_round_half_even_exact(size * pow2(extra), unit);
    let m = quotient_significand(size, unit);
    assert(m == size * pow2(extra));
    assert(m * 100 == (size * 100) * pow2(extra)) by (nonlinear_arith)
        requires
            m == size * pow2(extra),
    ;
    lemma_round_half_even_scaled(size * 100, unit, pow2(extra));
    assert(unit * pow2(extra) == pow2(t)) by (nonlinear_arith)
        requires
            pow2(t) == pow2(extra) * unit,
    ;
}

// ---------------------------------------------------------------------------
// Monotonicity
// ---------------------------------------------------------------------------

/// Rounding a quotient is monotone in the dividend.
proof fn lemma_round_half_even_monotone(a: nat, b: nat, d: nat)
    requires
        d > 0,
        a <= b,
    ensures
        round_half_even(a, d) <= round_half_even(b, d),
{
    vstd::arithmetic::div_mod::lemma_div_is_ordered(a as int, b as int, d as int);
    vstd::arithmetic::div_mod::lemma_fundamental_div_mod(a as int, d as int);
    vstd::arithmetic::div_mod::lemma_fundamental_div_mod(b as int, d as int);
    let qa = a / d;
    let qb = b / d;
    if qa == qb {
        assert(d * qa == d * qb);
        assert(a % d <= b % d);
    }
}

/// Bit lengths are monotone.
proof fn lemma_bit_len_monotone(a: nat, b: nat)
    requires
        a <= b,
    ensures
        bit_len(a) <= bit_len(b),
{
    lemma_bit_len_upper(b);
    lemma_bit_len_at_most(a, bit_len(b));
}

/// A positive number is at least 2 to the power of its bit length minus one.
proof fn lemma_bit_len_lower(n: nat)
    requires
        n >= 1,
    ensures
        bit_len(n) >= 1,
        pow2((bit_len(n) - 1) as nat) <= n,
    decreases n,
{
    lemma_pow2_zero();
    if n >= 2 {
        lemma_bit_len_lower(n / 2);
        lemma_pow2_unfold(bit_len(n / 2));
    } else {
        assert(bit_len(0) == 0);
        assert(bit_len(1) == 1 + bit_len(0));
    }
}

/// The `f64` nearest to `n / d` scaled by `2^53`: its significand times
/// `2^(e + 53)`, an integer.
pub open spec fn quotient_numerator(n: nat, d: nat) -> nat {
    quotient_significand(n, d) * pow2(bit_len(n / d))
}

/// The significand of a quotient of at least one has its leading bit set.
proof fn lemma_significand_lower(n: nat, d: nat)
    requires
        d > 0,
        n / d >= 1,
    ensures
        quotient_significand(n, d) >= pow2(52),
{
    let q = n / d;
    let l = bit_len(q);
    lemma_bit_len_lower(q);
    vstd::arithmetic::div_mod::lemma_fundamental_div_mod(n as int, d as int);
    let low = pow2((l - 1) as nat);
    assert(n >= d * low) by (nonlinear_arith)
        requires
            n == d * q + n % d,
            n % d >= 0,
            q >= low,
            d > 0,
    ;
    let e = quotient_exponent(n, d);
    if e >= 0 {
        let pe = pow2(e as nat);
        lemma_pow2_pos(e as nat);
        lemma_pow2_adds(e as nat, 52);
        assert((l - 1) as nat == e as nat + 52);
        assert(n >= (d * pe) * pow2(52)) by (nonlinear_arith)
            requires
                n >= d * low,
                low == pe * pow2(52),
        ;
        assert(d * pe > 0) by (nonlinear_arith)
            requires
                d > 0,
                pe > 0,
        ;
        vstd::arithmetic::div_mod::lemma_fundamental_div_mod_converse(
            ((d * pe) * pow2(52)) as int,
            (d * pe) as int,
            pow2(52) as int,
            0,
        );
        vstd::arithmetic::div_mod::lemma_div_is_ordered(
            ((d * pe) * pow2(52)) as int,
            n as int,
            (d * pe) as int,
        );
    } else {
        let pe = pow2((-e) as nat);
        lemma_pow2_pos((-e) as nat);
        lemma_pow2_adds((-e) as nat, (l - 1) as nat);
        assert((-e) as nat + (l - 1) as nat == 52);
        assert(n * pe >= d * pow2(52)) by (nonlinear_arith)
            requires
                n >= d * low,
                pow2(52) == pe * low,
                pe > 0,
        ;
        vstd::arithmetic::div_mod::lemma_fundamental_div_mod_converse(
            (d * pow2(52)) as int,
            d as int,
            pow2(52) as int,
            0,
        );
        vstd::arithmetic::div_mod::lemma_div_is_ordered((d * pow2(52)) as int, (n * pe) as int, d as int);
    }
}

/// The scaled `f64` quotient is monotone in the dividend.
proof fn lemma_quotient_numerator_monotone(n1: nat, n2: nat, d: nat)
    requires
        d > 0,
        n1 <= n2,
    ensures
        quotient_numerator(n1, d) <= quotient_numerator(n2, d),
{
    let q1 = n1 / d;
    let q2 = n2 / d;
    vstd::arithmetic::div_mod::lemma_div_is_ordered(n1 as int, n2 as int, d as int);
    lemma_bit_len_monotone(q1, q2);
    let l1 = bit_len(q1);
    let l2 = bit_len(q2);
    let m1 = quotient_significand(n1, d);
    let m2 = quotient_significand(n2, d);
    lemma_pow2_pos(l1);
    lemma_pow2_pos(l2);
    if l1 == l2 {
        let e = quotient_exponent(n1, d);
        if e >= 0 {
            let pe = pow2(e as nat);
            lemma_pow2_pos(e as nat);
            assert(d * pe > 0) by (nonlinear_arith)
                requires
                    d > 0,
                    pe > 0,
            ;
            lemma_round_half_even_monotone(n1, n2, d * pe);
        } else {
            let pe = pow2((-e) as nat);
            assert(n1 * pe <= n2 * pe) by (nonlinear_arith)
                requires
                    n1 <= n2,
            ;
            lemma_round_half_even_monotone(n1 * pe, n2 * pe, d);
        }
        assert(m1 * pow2(l1) <= m2 * pow2(l2)) by (nonlinear_arith)
            requires
                m1 <= m2,
                l1 == l2,
        ;
    } else {
        lemma_significand_bound(n1, d);
        assert(l2 >= 1);
        lemma_bit_len_lower(q2);
        assert(q2 >= 1) by {
            if q2 == 0 {
                assert(bit_len(0) == 0);
            }
        }
        lemma_significand_lower(n2, d);
        lemma_pow2_adds(53, l1);
        lemma_pow2_adds(52, l2);
        if l1 + 53 < l2 + 52 {
            vstd::arithmetic::power2::lemma_pow2_strictly_increases(l1 + 53, l2 + 52);
        }
        assert(m1 * pow2(l1) <= pow2(53) * pow2(l1)) by (nonlinear_arith)
            requires
                m1 <= pow2(53),
                pow2(l1) > 0,
        ;
        assert(pow2(52) * pow2(l2) <= m2 * pow2(l2)) by (nonlinear_arith)
            requires
                m2 >= pow2(52),
                pow2(l2) > 0,
        ;
    }
}

/// The hundredths of a rounded quotient are the scaled quotient rounded.
proof fn lemma_hundredths_of_numerator(n: nat, d: nat)
    requires
        d > 0,
    ensures
        hundredths(quotient_significand(n, d), quotient_exponent(n, d)) == round_half_even(
            quotient_numerator(n, d) * 100,
            pow2(53),
        ),
{
    let m = quotient_significand(n, d);
    let l = bit_len(n / d);
    let e = quotient_exponent(n, d);
    lemma_pow2_pos(53);
    if e >= 0 {
        lemma_pow2_adds(e as nat, 53);
        assert(quotient_numerator(n, d) * 100 == (m * pow2(e as nat) * 100) * pow2(53)) by (nonlinear_arith)
            requires
                quotient_numerator(n, d) == m * pow2(l),
                pow2(l) == pow2(e as nat) * pow2(53),
        ;
        lemma_round_half_even_exact(m * pow2(e as nat) * 100, pow2(53));
    } else {
        let t = (-e) as nat;
        lemma_pow2_adds(t, l);
        lemma_pow2_pos(t);
        lemma_pow2_pos(l);
        assert(quotient_numerator(n, d) * 100 == (m * 100) * pow2(l)) by (nonlinear_arith)
            requires
                quotient_numerator(n, d) == m * pow2(l),
        ;
        assert(pow2(53) == pow2(t) * pow2(l));
        lemma_round_half_even_scaled(m * 100, pow2(t), pow2(l));
    }
}

/// The nearest `f64` to an integer, scaled by `2^53`, is its scaled quotient by one.
proof fn lemma_nearest_as_quotient(s: nat)
    ensures
        nearest_f64_int(s) * pow2(53) == quotient_numerator(s, 1),
{
    let l = bit_len(s);
    assert(s / 1 == s);
    let m = quotient_significand(s, 1);
    lemma_pow2_zero();
    if l <= 53 {
        let t = (53 - l) as nat;
        lemma_pow2_adds(t, l);
        if l == 53 {
            assert(m == round_half_even(s, 1 * pow2(0)));
            lemma_round_half_even_exact(s, 1);
            assert(s * 1 == s);
        } else {
            assert(m == round_half_even(s * pow2(t), 1));
            lemma_round_half_even_exact(s * pow2(t), 1);
            assert(s * pow2(t) * 1 == s * pow2(t));
        }
        assert(s * pow2(53) == (s * pow2(t)) * pow2(l)) by (nonlinear_arith)
            requires
                pow2(53) == pow2(t) * pow2(l),
        ;
    } else {
        let k = (l - 53) as nat;
        lemma_pow2_adds(k, 53);
        assert(1 * pow2(k) == pow2(k));
        assert(m == round_half_even(s, pow2(k)));
        assert(m * pow2(k) * pow2(53) == m * pow2(l)) by (nonlinear_arith)
            requires
                pow2(l) == pow2(k) * pow2(53),
        ;
    }
}

/// The number `{:.2}` shows for `value as f64 / unit as f64` never decreases
/// as the value grows.
pub proof fn law_scaled_hundredths_monotone(a: nat, b: nat, unit: nat)
    requires
        a <= b,
        unit > 0,
    ensures
        scaled_hundredths(a, unit) <= scaled_hundredths(b, unit),
{
    lemma_pow2_pos(53);
    lemma_nearest_as_quotient(a);
    lemma_nearest_as_quotient(b);
    lemma_quotient_numerator_monotone(a, b, 1);
    let na = nearest_f64_int(a);
    let nb = nearest_f64_int(b);
    assert(na <= nb) by (nonlinear_arith)
        requires
            na * pow2(53) <= nb * pow2(53),
            pow2(53) > 0,
    ;
    lemma_quotient_numerator_monotone(na, nb, unit);
    lemma_hundredths_of_numerator(na, unit);
    lemma_hundredths_of_numerator(nb, unit);
    lemma_round_half_even_monotone(
        quotient_numerator(na, unit) * 100,
        quotient_numerator(nb, unit) * 100,
        pow2(53),
    );
}

/// The unit `pretty_bytes` uses for a size: 0 for B, 1 for KB, 2 for MB, 3 for GB.
pub open spec fn bytes_unit_rank(size: nat) -> nat {
    if size >= GIB {
        3
    } else if size >= MIB {
        2
    } else if size >= KIB {
        1
    } else {
        0
    }
}

/// The number `pretty_bytes` shows for a size, in hundredths of its unit.
pub open spec fn bytes_shown_hundredths(size: nat) -> nat {
    if bytes_unit_rank(size) == 3 {
        scaled_hundredths(size, GIB as nat)
    } else if bytes_unit_rank(size) == 2 {
        scaled_hundredths(size, MIB as nat)
    } else if bytes_unit_rank(size) == 1 {
        scaled_hundredths(size, KIB as nat)
    } else {
        size * 100
    }
}

/// The suffix naming a unit of bytes.
pub open spec fn bytes_unit_suffix(rank: nat) -> Seq<char> {
    if rank == 3 {
        " GB"@
    } else if rank == 2 {
        " MB"@
    } else if rank == 1 {
        " KB"@
    } else {
        " B"@
    }
}

/// `pretty_bytes` is monotone: a larger size never gets a smaller unit, nor,
/// in the same unit, a smaller number.  Its text is the number (whole bytes,
/// else with two decimals) followed by the unit.
pub proof fn law_pretty_bytes_monotone(a: nat, b: nat)
    requires
        a <= b,
    ensures
        bytes_unit_rank(a) <= bytes_unit_rank(b),
        bytes_unit_rank(a) == bytes_unit_rank(b) ==> bytes_shown_hundredths(a) <= bytes_shown_hundredths(
            b,
        ),
        pretty_bytes_text(a) == (if bytes_unit_rank(a) == 0 {
            decimal(a)
        } else {
            two_decimals(bytes_shown_hundredths(a))
        }) + bytes_unit_suffix(bytes_unit_rank(a)),
{
    if bytes_unit_rank(a) == bytes_unit_rank(b) && bytes_unit_rank(a) > 0 {
        let unit: nat = if bytes_unit_rank(a) == 3 {
            GIB as nat
        } else if bytes_unit_rank(a) == 2 {
            MIB as nat
        } else {
            KIB as nat
        };
        law_scaled_hundredths_monotone(a, b, unit);
    }
}

/// The unit `pretty_seconds` uses: 0 for S, 1 for M, 2 for H, 3 for D.
pub open spec fn seconds_unit_rank(seconds: nat) -> nat {
    if seconds >= DAY {
        3
    } else if seconds >= HOUR {
        2
    } else if seconds >= MINUTE {
        1
    } else {
        0
    }
}

/// The number `pretty_seconds` shows, in hundredths of its unit.
pub open spec fn seconds_shown_hundredths(seconds: nat) -> nat {
    if seconds_unit_rank(seconds) == 3 {
        scaled_hundredths(seconds, DAY as nat)
    } else if seconds_unit_rank(seconds) == 2 {
        scaled_hundredths(seconds, HOUR as nat)
    } else if seconds_unit_rank(seconds) == 1 {
        scaled_hundredths(seconds, MINUTE as nat)
    } else {
        seconds * 100
    }
}

/// The suffix naming a unit of time.
pub open spec fn seconds_unit_suffix(rank: nat) -> Seq<char> {
    if rank == 3 {
        " D"@
    } else if rank == 2 {
        " H"@
    } else if rank == 1 {
        " M"@
    } else {
        " S"@
    }
}

/// `pretty_seconds` is monotone: a longer duration never gets a smaller
/// unit, nor, in the same unit, a smaller number.  Its text is the number
/// (whole seconds, else with two decimals) followed by the unit.
pub proof fn law_pretty_seconds_monotone(a: nat, b: nat)
    requires
        a <= b,
    ensures
        seconds_unit_rank(a) <= seconds_unit_rank(b),
        seconds_unit_rank(a) == seconds_unit_rank(b) ==> seconds_shown_hundredths(a)
            <= seconds_shown_hundredths(b),
        pretty_seconds_text(a) == (if seconds_unit_rank(a) == 0 {
            decimal(a)
        } else {
            two_decimals(seconds_shown_hundredths(a))
        }) + seconds_unit_suffix(seconds_unit_rank(a)),
{
    if seconds_unit_rank(a) == seconds_unit_rank(b) && seconds_unit_rank(a) > 0 {
        let unit: nat = if seconds_unit_rank(a) == 3 {
            DAY as nat
        } else if seconds_unit_rank(a) == 2 {
            HOUR as nat
        } else {
            MINUTE as nat
        };
        law_scaled_hundredths_monotone(a, b, unit);
    }
}

/// An exact multiple of the unit, below `2^53`, shows as that multiple.
proof fn lemma_scaled_multiple(c: nat, unit: nat)
    requires
        unit > 0,
        c * unit < pow2(53),
    ensures
        scaled_hundredths(c * unit, unit) == c * 100,
{
    let v = c * unit;
    lemma_bit_len_at_most(v, 53);
    assert(nearest_f64_int(v) == v);
    vstd::arithmetic::div_mod::lemma_fundamental_div_mod_converse(v as int, unit as int, c as int, 0);
    assert(c <= v) by (nonlinear_arith)
        requires
            v == c * unit,
            unit > 0,
    ;
    lemma_bit_len_at_most(c, 53);
    let l = bit_len(c);
    let e = quotient_exponent(v, unit);
    assert(e == l - 53);
    if l == 53 {
        lemma_pow2_zero();
        assert(unit * pow2(0) == unit);
        vstd::arithmetic::div_mod::lemma_fundamental_div_mod_converse(v as int, unit as int, c as int, 0);
        assert(quotient_significand(v, unit) == c);
        assert(c * pow2(0) * 100 == c * 100);
    } else {
        let t = (53 - l) as nat;
        lemma_pow2_pos(t);
        assert(v * pow2(t) == (c * pow2(t)) * unit) by (nonlinear_arith)
            requires
                v == c * unit,
        ;
        lemma_round_half_even_exact(c * pow2(t), unit);
        assert(quotient_significand(v, unit) == c * pow2(t));
        assert(c * pow2(t) * 100 == (c * 100) * pow2(t)) by (nonlinear_arith);
        lemma_round_half_even_exact(c * 100, pow2(t));
    }
}

/// Values up to `2^32` lie below `2^53`.
proof fn lemma_below_significand_range(v: nat)
    requires
        v <= 0x1_0000_0000,
    ensures
        v < pow2(53),
{
    lemma2_to64();
    vstd::arithmetic::power2::lemma_pow2_strictly_increases(32, 53);
}

/// In a unit above bytes, `pretty_bytes` shows at least 1.00, and in KB and
/// MB at most 1024.00.
pub proof fn law_pretty_bytes_range(size: nat)
    ensures
        bytes_unit_rank(size) > 0 ==> bytes_shown_hundredths(size) >= 100,
        bytes_unit_rank(size) == 1 || bytes_unit_rank(size) == 2 ==> bytes_shown_hundredths(size)
            <= 102400,
{
    let rank = bytes_unit_rank(size);
    if rank > 0 {
        let unit: nat = if rank == 3 {
            GIB as nat
        } else if rank == 2 {
            MIB as nat
        } else {
            KIB as nat
        };
        lemma_below_significand_range(1 * unit);
        lemma_scaled_multiple(1, unit);
        law_scaled_hundredths_monotone(1 * unit, size, unit);
        if rank < 3 {
            lemma_below_significand_range(1024 * unit);
            lemma_scaled_multiple(1024, unit);
            law_scaled_hundredths_monotone(size, 1024 * unit, unit);
        }
    }
}

/// In a unit above seconds, `pretty_seconds` shows at least 1.00; minutes
/// at most 60.00 and hours at most 24.00.
pub proof fn law_pretty_seconds_range(seconds: nat)
    ensures
        seconds_unit_rank(seconds) > 0 ==> seconds_shown_hundredths(seconds) >= 100,
        seconds_unit_rank(seconds) == 1 ==> seconds_shown_hundredths(seconds) <= 6000,
        seconds_unit_rank(seconds) == 2 ==> seconds_shown_hundredths(seconds) <= 2400,
{
    let rank = seconds_unit_rank(seconds);
    if rank > 0 {
        let unit: nat = if rank == 3 {
            DAY as nat
        } else if rank == 2 {
            HOUR as nat
        } else {
            MINUTE as nat
        };
        lemma_below_significand_range(1 * unit);
        lemma_scaled_multiple(1, unit);
        law_scaled_hundredths_monotone(1 * unit, seconds, unit);
        if rank == 1 {
            lemma_below_significand_range(60 * unit);
            lemma_scaled_multiple(60, unit);
            law_scaled_hundredths_monotone(seconds, 60 * unit, unit);
        } else if rank == 2 {
            lemma_below_significand_range(24 * unit);
            lemma_scaled_multiple(24, unit);
            law_scaled_hundredths_monotone(seconds, 24 * unit, unit);
        }
    }
}

/// Appends `h` hundredths with two decimals, such as `12.05`.
fn push_two_decimals(out: &mut String, h: u128)
    ensures
        final(out)@ == old(out)@ + two_decimals(h as nat),
{
    push_decimal(out, h / 100);
    out.push('.');
    out.push(digit_to_char(((h % 100) / 10) as u8));
    out.push(digit_to_char((h % 10) as u8));
    proof {
        assert(final(out)@ =~= old(out)@ + two_decimals(h as nat));
    }
}

/// Converts a byte count to a human-readable text: bytes below one KiB, else
/// KB, MB or GB (powers of 1024) with two decimals.
pub fn pretty_bytes(size: u64) -> (text: String)
    ensures
        text@ == pretty_bytes_text(size as nat),
{
    let mut out = String::new();
    if size >= GIB {
        push_two_decimals(&mut out, scaled_value_hundredths(size, GIB));
        out.append(" GB");
    } else if size >= MIB {
        push_two_decimals(&mut out, scaled_value_hundredths(size, MIB));
        out.append(" MB");
    } else if size >= KIB {
        push_two_decimals(&mut out, scaled_value_hundredths(size, KIB));
        out.append(" KB");
    } else {
        push_decimal(&mut out, size as u128);
        out.append(" B");
    }
    proof {
        assert(out@ =~= pretty_bytes_text(size as nat));
    }
    out
}

/// Converts a number of seconds to a human-readable text: seconds below one
/// minute, else minutes (M), hours (H) or days (D) with two decimals.
pub fn pretty_seconds(seconds: u64) -> (text: String)
    ensures
        text@ == pretty_seconds_text(seconds as nat),
{
    let mut out = String::new();
    if seconds >= DAY {
        push_two_decimals(&mut out, scaled_value_hundredths(seconds, DAY));
        out.append(" D");
    } else if seconds >= HOUR {
        push_two_decimals(&mut out, scaled_value_hundredths(seconds, HOUR));
        out.append(" H");
    } else if seconds >= MINUTE {
        push_two_decimals(&mut out, scaled_value_hundredths(seconds, MINUTE));
        out.append(" M");
    } else {
        push_decimal(&mut out, seconds as u128);
        out.append(" S");
    }
    proof {
        assert(out@ =~= pretty_seconds_text(seconds as nat));
    }
    out
}

} // verus!
