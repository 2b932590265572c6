//! IEEE 754 binary formats, worked on as bit patterns.
//!
//! A finite value is spoken of as a whole number of units of the smallest
//! positive value of its format: `2^-24` for half, `2^-149` for single and
//! `2^-1074` for double precision.

use vstd::prelude::*;
use vstd::arithmetic::power2::pow2;
use vstd::arithmetic::power2::{lemma_pow2_adds, lemma_pow2_pos, lemma_pow2_unfold};

verus! {

/// One past the largest half-precision fraction.
pub const HALF_FRACTION: u32 = 0x400;

/// One past the largest single-precision fraction.
pub const SINGLE_FRACTION: u32 = 0x80_0000;

/// One past the largest double-precision fraction.
pub const DOUBLE_FRACTION: u64 = 0x10_0000_0000_0000;

/// The single-precision pattern of positive infinity.
pub const SINGLE_INFINITY: u32 = 0x7F80_0000;

/// A single-precision pattern that is not a number.
pub const SINGLE_NAN: u32 = 0x7FC0_0000;

/// A double-precision pattern that is not a number.
pub const DOUBLE_NAN: u64 = 0x7FF8_0000_0000_0000;

/// The value, in units, of the pattern `m` without its sign bit, where
/// fractions stay below `w`. Infinity counts as the value that its pattern
/// would stand for.
pub open spec fn magnitude(m: nat, w: nat) -> nat {
    if m < w {
        m
    } else {
        (w + m % w) * pow2((m / w - 1) as nat)
    }
}

/// A half-precision pattern without its sign, in units of `2^-24`.
pub open spec fn half_magnitude(b: u16) -> nat {
    magnitude((b % 0x8000) as nat, HALF_FRACTION as nat)
}

/// A single-precision pattern without its sign, in units of `2^-149`.
pub open spec fn single_magnitude(b: u32) -> nat {
    magnitude((b % 0x8000_0000) as nat, SINGLE_FRACTION as nat)
}

/// A double-precision pattern without its sign, in units of `2^-1074`.
pub open spec fn double_magnitude(b: u64) -> nat {
    magnitude((b % 0x8000_0000_0000_0000) as nat, DOUBLE_FRACTION as nat)
}

/// The half-precision pattern is not a number.
pub open spec fn half_is_nan(b: u16) -> bool {
    b % 0x8000 > 0x7C00
}

/// The single-precision pattern is not a number.
pub open spec fn single_is_nan(b: u32) -> bool {
    b % 0x8000_0000 > SINGLE_INFINITY
}

/// The double-precision pattern is not a number.
pub open spec fn double_is_nan(b: u64) -> bool {
    b % 0x8000_0000_0000_0000 > 0x7FF0_0000_0000_0000
}

/// The signed value of a single-precision pattern, in units of `2^-149`.
pub open spec fn single_units(b: u32) -> int {
    if b >= 0x8000_0000 {
        -(single_magnitude(b) as int)
    } else {
        single_magnitude(b) as int
    }
}

/// The distance from a pattern's value to the next one up.
pub open spec fn gap(m: nat, w: nat) -> nat {
    if m < w {
        1
    } else {
        pow2((m / w - 1) as nat)
    }
}

pub proof fn lemma_magnitude_step(m: nat, w: nat)
    requires
        w > 0,
    ensures
        magnitude(m + 1, w) == magnitude(m, w) + gap(m, w),
{
    let e = m / w;
    let f = m % w;
    vstd::arithmetic::div_mod::lemma_fundamental_div_mod(m as int, w as int);
    if m + 1 < w {
    } else if m + 1 == w {
        vstd::arithmetic::div_mod::lemma_fundamental_div_mod_converse(w as int, w as int, 1, 0);
        vstd::arithmetic::power2::lemma2_to64();
        assert((w + 0) * 1 == w) by (nonlinear_arith);
    } else {
        assert(m >= w);
        assert(e >= 1) by (nonlinear_arith)
            requires
                m == w * e + f,
                f < w,
                m >= w,
                w > 0,
        ;
        let p = pow2((e - 1) as nat);
        if f + 1 < w {
            vstd::arithmetic::div_mod::lemma_fundamental_div_mod_converse(
                (m + 1) as int,
                w as int,
                e as int,
                (f + 1) as int,
            );
            assert((w + (f + 1)) * p == (w + f) * p + p) by (nonlinear_arith);
        } else {
            assert(m + 1 == (e + 1) * w) by (nonlinear_arith)
                requires
                    m == w * e + f,
                    f + 1 == w,
            ;
            vstd::arithmetic::div_mod::lemma_fundamental_div_mod_converse(
                (m + 1) as int,
                w as int,
                e as int + 1,
                0,
            );
            lemma_pow2_unfold(e);
            assert((w + 0) * (2 * p) == (w + f) * p + p) by (nonlinear_arith)
                requires
                    f + 1 == w,
            ;
        }
    }
}

/// Patterns without a sign are ordered as their values are.
pub proof fn law_magnitude_is_monotone(x: nat, y: nat, w: nat)
    requires
        x < y,
        w > 0,
    ensures
        magnitude(x, w) < magnitude(y, w),
    decreases y - x,
{
    let z = (y - 1) as nat;
    lemma_magnitude_step(z, w);
    if z >= w {
        lemma_pow2_pos((z / w - 1) as nat);
    }
    if x < z {
        law_magnitude_is_monotone(x, z, w);
    }
}

/// `a < b` for single-precision patterns.
pub open spec fn single_lt(a: u32, b: u32) -> bool {
    !single_is_nan(a) && !single_is_nan(b) && single_units(a) < single_units(b)
}

/// `a <= b` for single-precision patterns.
pub open spec fn single_le(a: u32, b: u32) -> bool {
    !single_is_nan(a) && !single_is_nan(b) && single_units(a) <= single_units(b)
}

/// An integer that orders the numbers: it is lower for one pattern than for another
/// exactly where the number is.
pub open spec fn order_key(b: u32) -> int {
    if b >= 0x8000_0000 {
        0x8000_0000 - b
    } else {
        b as int
    }
}

/// The key orders as the numbers are ordered.
pub proof fn law_order_key(a: u32, b: u32)
    ensures
        single_units(a) < single_units(b) <==> order_key(a) < order_key(b),
{
    let w = SINGLE_FRACTION as nat;
    let x = (a % 0x8000_0000) as nat;
    let y = (b % 0x8000_0000) as nat;
    if x < y {
        law_magnitude_is_monotone(x, y, w);
    }
    if y < x {
        law_magnitude_is_monotone(y, x, w);
    }
    if 0 < x {
        law_magnitude_is_monotone(0, x, w);
    }
    if 0 < y {
        law_magnitude_is_monotone(0, y, w);
    }
    assert(magnitude(0, w) == 0);
}

/// The key of a pattern.
pub fn key(b: u32) -> (r: i64)
    ensures
        r == order_key(b),
{
    if b >= 0x8000_0000 {
        0x8000_0000i64 - b as i64
    } else {
        b as i64
    }
}

/// Whether the pattern is not a number.
pub fn is_nan(b: u32) -> (r: bool)
    ensures
        r == single_is_nan(b),
{
    b % 0x8000_0000 > SINGLE_INFINITY
}

/// Whether `a < b`.
pub fn less(a: u32, b: u32) -> (r: bool)
    ensures
        r == single_lt(a, b),
{
    proof {
        law_order_key(a, b);
    }
    !is_nan(a) && !is_nan(b) && key(a) < key(b)
}

/// Whether `a <= b`.
pub fn less_or_equal(a: u32, b: u32) -> (r: bool)
    ensures
        r == single_le(a, b),
{
    proof {
        law_order_key(b, a);
    }
    !is_nan(a) && !is_nan(b) && key(a) <= key(b)
}

/// `a * 2^i * 2^j` is `a * 2^(i + j)`.
proof fn lemma_scale(a: nat, i: nat, j: nat)
    ensures
        a * pow2(i) * pow2(j) == a * pow2(i + j),
{
    lemma_pow2_adds(i, j);
    let x = pow2(i);
    let y = pow2(j);
    assert(a * x * y == a * (x * y)) by (nonlinear_arith);
}

/// The value of a normal pattern, from its exponent field and its fraction.
proof fn lemma_normal(e: nat, f: nat, w: nat)
    requires
        e >= 1,
        f < w,
    ensures
        magnitude(e * w + f, w) == (w + f) * pow2((e - 1) as nat),
{
    assert(e * w + f >= w) by (nonlinear_arith)
        requires
            e >= 1,
    ;
    assert(e * w == w * e) by (nonlinear_arith);
    vstd::arithmetic::div_mod::lemma_fundamental_div_mod_converse(
        (e * w + f) as int,
        w as int,
        e as int,
        f as int,
    );
}

/// The half-precision pattern without its sign, taken apart.
proof fn lemma_fields(m: nat, w: nat)
    requires
        w > 0,
    ensures
        m == (m / w) * w + m % w,
        m % w < w,
{
    vstd::arithmetic::div_mod::lemma_fundamental_div_mod(m as int, w as int);
    let q = m / w;
    assert(w * q == q * w) by (nonlinear_arith);
}

/// Doubles `f` until its top bit stands at bit `p`, and counts the steps.
fn normalise(f: u64, top: u64, p: u32) -> (r: (u64, u32))
    requires
        0 < f < top,
        top == pow2(p as nat),
        top <= DOUBLE_FRACTION,
    ensures
        r.0 == f * pow2(r.1 as nat),
        top <= r.0 < 2 * top,
        r.1 <= p,
{
    let mut g: u64 = f;
    let mut k: u32 = 0;
    proof {
        vstd::arithmetic::power2::lemma2_to64();
    }
    while g < top
        invariant
            0 < f <= g < 2 * top,
            top == pow2(p as nat),
            top <= DOUBLE_FRACTION,
            k <= p,
            g == f * pow2(k as nat),
        decreases 2 * top - g,
    {
        proof {
            if k >= p {
                lemma_pow2_grows(p as nat, k as nat);
                let q = pow2(k as nat);
                assert(f * q >= q) by (nonlinear_arith)
                    requires
                        f >= 1,
                ;
            }
            lemma_pow2_unfold(k as nat + 1);
            let q = pow2(k as nat);
            assert(2 * (f * q) == f * (2 * q)) by (nonlinear_arith);
        }
        g = 2 * g;
        k += 1;
    }
    (g, k)
}

proof fn lemma_pow2_grows(a: nat, b: nat)
    requires
        a <= b,
    ensures
        pow2(a) <= pow2(b),
{
    if a < b {
        vstd::arithmetic::power2::lemma_pow2_strictly_increases(a, b);
    }
}

/// `r` is the half-precision `bits` in single precision: the sign and the value
/// stay as they are, and what is not a number stays so.
pub open spec fn is_half_widening(bits: u16, r: u32) -> bool {
    &&& half_is_nan(bits) ==> r == SINGLE_NAN
    &&& !half_is_nan(bits) ==> (r >= 0x8000_0000 <==> bits >= 0x8000)
    &&& bits % 0x8000 == 0x7C00 ==> r % 0x8000_0000 == SINGLE_INFINITY
    &&& bits % 0x8000 < 0x7C00 ==> {
        &&& r % 0x8000_0000 < SINGLE_INFINITY
        &&& single_magnitude(r) == half_magnitude(bits) * pow2(125)
    }
}

/// `bits` in single precision.
pub open spec fn half_widened(bits: u16) -> u32 {
    choose|r: u32| is_half_widening(bits, r)
}

/// A half-precision pattern has at most one widening.
pub proof fn law_half_widening_is_unique(bits: u16, x: u32, y: u32)
    requires
        is_half_widening(bits, x),
        is_half_widening(bits, y),
    ensures
        x == y,
{
    let w = SINGLE_FRACTION as nat;
    let m = (x % 0x8000_0000) as nat;
    let n = (y % 0x8000_0000) as nat;
    if m < n {
        law_magnitude_is_monotone(m, n, w);
    } else if n < m {
        law_magnitude_is_monotone(n, m, w);
    }
}

/// Convert a 16-bit IEEE 754 half-precision float (stored as u16 bits)
/// to the bits of a 32-bit one.
pub fn fp16_to_fp32(bits: u16) -> (r: u32)
    ensures
        is_half_widening(bits, r),
        r == half_widened(bits),
{
    let r: u32 = widen_half(bits);
    proof {
        law_half_widening_is_unique(bits, r, half_widened(bits));
    }
    r
}

fn widen_half(bits: u16) -> (r: u32)
    ensures
        is_half_widening(bits, r),
{
    let m: u32 = (bits % 0x8000) as u32;
    let sign: u32 = if bits >= 0x8000 {
        0x8000_0000
    } else {
        0
    };
    let e: u32 = m / HALF_FRACTION;
    let f: u32 = m % HALF_FRACTION;
    if e == 31 {
        if f == 0 {
            return sign + SINGLE_INFINITY;
        }
        return SINGLE_NAN;
    }
    if m == 0 {
        assert(0 * pow2(125) == 0);
        return sign;
    }
    proof {
        vstd::arithmetic::power2::lemma2_to64();
    }
    let ghost value = half_magnitude(bits);
    let (g, x): (u32, u32) = if e > 0 {
        proof {
            lemma_scale((HALF_FRACTION + f) as nat, (e - 1) as nat, 113);
        }
        (HALF_FRACTION + f, e + 112)
    } else {
        let (g, k) = normalise(f as u64, 1024, 10);
        proof {
            lemma_scale(f as nat, k as nat, (113 - k) as nat);
        }
        (g as u32, 113 - k)
    };
    assert(g * pow2(x as nat) == value * pow2(113));
    let fraction: u32 = (g - HALF_FRACTION) * 8192;
    let r: u32 = sign + x * SINGLE_FRACTION + fraction;
    proof {
        let w = SINGLE_FRACTION as nat;
        lemma_normal(x as nat, fraction as nat, w);
        assert(r % 0x8000_0000 == x * SINGLE_FRACTION + fraction);
        assert((w + fraction) == g * pow2(13));
        lemma_scale(g as nat, 13, (x - 1) as nat);
        lemma_scale(g as nat, x as nat, 12);
        lemma_scale(value, 113, 12);
    }
    r
}

/// `r` is `b` in double precision: the sign and the value stay as they are, and
/// what is not a number stays so.
pub open spec fn is_widening(b: u32, r: u64) -> bool {
    &&& single_is_nan(b) ==> r == DOUBLE_NAN
    &&& !single_is_nan(b) ==> (r >= 0x8000_0000_0000_0000 <==> b >= 0x8000_0000)
    &&& b % 0x8000_0000 == SINGLE_INFINITY ==> r % 0x8000_0000_0000_0000 == 0x7FF0_0000_0000_0000
    &&& b % 0x8000_0000 < SINGLE_INFINITY ==> {
        &&& r % 0x8000_0000_0000_0000 < 0x7FF0_0000_0000_0000
        &&& double_magnitude(r) == single_magnitude(b) * pow2(925)
    }
}

/// `b` in double precision.
pub open spec fn widened(b: u32) -> u64 {
    choose|r: u64| is_widening(b, r)
}

/// A pattern has at most one widening.
pub proof fn law_widening_is_unique(b: u32, x: u64, y: u64)
    requires
        is_widening(b, x),
        is_widening(b, y),
    ensures
        x == y,
{
    let w = DOUBLE_FRACTION as nat;
    let m = (x % 0x8000_0000_0000_0000) as nat;
    let n = (y % 0x8000_0000_0000_0000) as nat;
    if m < n {
        law_magnitude_is_monotone(m, n, w);
    } else if n < m {
        law_magnitude_is_monotone(n, m, w);
    }
}

/// Widens a single-precision pattern to double precision.
pub fn widen_single(b: u32) -> (r: u64)
    ensures
        is_widening(b, r),
        r == widened(b),
{
    let r: u64 = widen(b);
    proof {
        law_widening_is_unique(b, r, widened(b));
    }
    r
}

fn widen(b: u32) -> (r: u64)
    ensures
        is_widening(b, r),
{
    let m: u32 = b % 0x8000_0000;
    let sign: u64 = if b >= 0x8000_0000 {
        0x8000_0000_0000_0000
    } else {
        0
    };
    let e: u32 = m / SINGLE_FRACTION;
    let f: u32 = m % SINGLE_FRACTION;
    if e == 255 {
        if f == 0 {
            return sign + 0x7FF0_0000_0000_0000;
        }
        return DOUBLE_NAN;
    }
    if m == 0 {
        assert(0 * pow2(925) == 0);
        return sign;
    }
    proof {
        vstd::arithmetic::power2::lemma2_to64();
    }
    let ghost value = single_magnitude(b);
    let (g, x): (u64, u64) = if e > 0 {
        proof {
            lemma_scale((SINGLE_FRACTION + f) as nat, (e - 1) as nat, 897);
        }
        ((SINGLE_FRACTION + f) as u64, e as u64 + 896)
    } else {
        let (g, k) = normalise(f as u64, 0x80_0000, 23);
        proof {
            lemma_scale(f as nat, k as nat, (897 - k) as nat);
        }
        (g, 897 - k as u64)
    };
    assert(g * pow2(x as nat) == value * pow2(897));
    let fraction: u64 = (g - 0x80_0000) * 0x2000_0000;
    let r: u64 = sign + x * DOUBLE_FRACTION + fraction;
    proof {
        let w = DOUBLE_FRACTION as nat;
        lemma_normal(x as nat, fraction as nat, w);
        assert(r % 0x8000_0000_0000_0000 == x * DOUBLE_FRACTION + fraction);
        assert((w + fraction) == g * pow2(29));
        lemma_scale(g as nat, 29, (x - 1) as nat);
        lemma_scale(g as nat, x as nat, 28);
        lemma_scale(value, 897, 28);
    }
    r
}

/// The value of the single-precision pattern `m` without a sign, in units of
/// `2^-1074`.
pub open spec fn single_in_double_units(m: nat) -> nat {
    magnitude(m, SINGLE_FRACTION as nat) * pow2(925)
}

/// `r` is the single-precision pattern nearest to `x` units of `2^-1074`, the
/// even one of two equally near, and infinity from halfway past the largest
/// finite value.
pub open spec fn is_nearest_single(x: nat, r: nat) -> bool {
    &&& r <= SINGLE_INFINITY
    &&& r > 0 ==> {
        let low = single_in_double_units((r - 1) as nat) + single_in_double_units(r);
        2 * x > low || (2 * x == low && r % 2 == 0)
    }
    &&& r < SINGLE_INFINITY ==> {
        let high = single_in_double_units(r) + single_in_double_units(r + 1);
        2 * x < high || (2 * x == high && r % 2 == 0)
    }
}

proof fn lemma_single_in_double_units(a: nat, b: nat)
    requires
        a < b,
    ensures
        single_in_double_units(a) < single_in_double_units(b),
{
    law_magnitude_is_monotone(a, b, SINGLE_FRACTION as nat);
    lemma_pow2_pos(925);
    let x = magnitude(a, SINGLE_FRACTION as nat);
    let y = magnitude(b, SINGLE_FRACTION as nat);
    let p = pow2(925);
    assert(x * p < y * p) by (nonlinear_arith)
        requires
            x < y,
            p > 0,
    ;
}

/// At most one pattern is nearest.
pub proof fn law_nearest_single_is_unique(x: nat, a: nat, b: nat)
    requires
        is_nearest_single(x, a),
        is_nearest_single(x, b),
    ensures
        a == b,
{
    if a < b {
        lemma_nearest_single_order(x, a, b);
    } else if b < a {
        lemma_nearest_single_order(x, b, a);
    }
}

proof fn lemma_nearest_single_order(x: nat, a: nat, b: nat)
    requires
        is_nearest_single(x, a),
        a < b,
    ensures
        !is_nearest_single(x, b),
{
    if a + 1 < b {
        lemma_single_in_double_units(a, (b - 1) as nat);
        lemma_single_in_double_units(a + 1, b);
    }
}

proof fn lemma_nearest_single(x: nat, low: nat, up: bool)
    requires
        low < SINGLE_INFINITY,
        single_in_double_units(low) <= x < single_in_double_units(low + 1),
        up == (2 * x > single_in_double_units(low) + single_in_double_units(low + 1) || (2 * x
            == single_in_double_units(low) + single_in_double_units(low + 1) && low % 2 == 1)),
    ensures
        is_nearest_single(
            x,
            if up {
                low + 1
            } else {
                low
            },
        ),
{
    lemma_single_in_double_units(low, low + 1);
    lemma_single_in_double_units(low + 1, low + 2);
    if low > 0 {
        lemma_single_in_double_units((low - 1) as nat, low);
    }
}

/// Rounds `s * 2^i` to single precision, where `low` is the pattern just below
/// and `d` is the distance to the next one, counted in steps of `2^i`.
proof fn lemma_round_choice(s: nat, i: nat, low: nat, q: nat, t: nat, d: nat)
    requires
        s == q * d + t,
        t < d,
        low < SINGLE_INFINITY,
        single_in_double_units(low) == q * d * pow2(i),
        single_in_double_units(low + 1) == (q + 1) * d * pow2(i),
    ensures
        is_nearest_single(
            s * pow2(i),
            if 2 * t > d || (2 * t == d && low % 2 == 1) {
                low + 1
            } else {
                low
            },
        ),
{
    let p = pow2(i);
    let c = q * d;
    lemma_pow2_pos(i);
    assert((q + 1) * d == c + d) by (nonlinear_arith)
        requires
            c == q * d,
    ;
    assert(s * p == c * p + t * p) by (nonlinear_arith)
        requires
            s == c + t,
    ;
    assert((c + d) * p == c * p + d * p) by (nonlinear_arith);
    assert(t * p < d * p) by (nonlinear_arith)
        requires
            t < d,
            p > 0,
    ;
    assert(t * p >= 0) by (nonlinear_arith);
    assert(2 * (t * p) == (2 * t) * p) by (nonlinear_arith);
    if 2 * t > d {
        assert((2 * t) * p > d * p) by (nonlinear_arith)
            requires
                2 * t > d,
                p > 0,
        ;
    } else if 2 * t < d {
        assert((2 * t) * p < d * p) by (nonlinear_arith)
            requires
                2 * t < d,
                p > 0,
        ;
    }
    lemma_nearest_single(s * p, low, 2 * t > d || (2 * t == d && low % 2 == 1));
}

/// Rounds `s * 2^(e - 1)` units of `2^-1074` to a normal value.
fn round_normal(s: u64, e: u64) -> (r: u32)
    requires
        DOUBLE_FRACTION <= s < 2 * DOUBLE_FRACTION,
        897 <= e < 1151,
    ensures
        is_nearest_single(s as nat * pow2((e - 1) as nat), r as nat),
{
    proof {
        vstd::arithmetic::power2::lemma2_to64();
        vstd::arithmetic::power2::lemma2_to64_rest();
    }
    let q: u64 = s / 0x2000_0000;
    let t: u64 = s % 0x2000_0000;
    let low: u32 = ((e - 897) * 0x80_0000 + q) as u32;
    proof {
        let w = SINGLE_FRACTION as nat;
        let n = (e - 896) as nat;
        lemma_normal(n, (q - w) as nat, w);
        lemma_magnitude_step(low as nat, w);
        lemma_fields(low as nat, w);
        assert(low == n * w + (q - w));
        vstd::arithmetic::div_mod::lemma_fundamental_div_mod_converse(
            low as int,
            w as int,
            n as int,
            (q - w) as int,
        );
        let p = pow2((n - 1) as nat);
        assert(q * p + p == (q + 1) * p) by (nonlinear_arith);
        lemma_scale(q as nat, (n - 1) as nat, 925);
        lemma_scale((q + 1) as nat, (n - 1) as nat, 925);
        lemma_scale(q as nat, 29, (e - 1) as nat);
        lemma_scale((q + 1) as nat, 29, (e - 1) as nat);
        lemma_round_choice(
            s as nat,
            (e - 1) as nat,
            low as nat,
            q as nat,
            t as nat,
            0x2000_0000,
        );
    }
    let up: bool = t > 0x1000_0000 || (t == 0x1000_0000 && low % 2 == 1);
    if up {
        low + 1
    } else {
        low
    }
}

/// Rounds `s * 2^(e - 1)` units of `2^-1074` to a value below the normal ones.
fn round_subnormal(s: u64, e: u64) -> (r: u32)
    requires
        DOUBLE_FRACTION <= s < 2 * DOUBLE_FRACTION,
        872 < e < 897,
    ensures
        is_nearest_single(s as nat * pow2((e - 1) as nat), r as nat),
{
    proof {
        vstd::arithmetic::power2::lemma2_to64();
        vstd::arithmetic::power2::lemma2_to64_rest();
    }
    let shift: u32 = (926 - e) as u32;
    let mut d: u64 = 1;
    let mut k: u32 = 0;
    while k < shift
        invariant
            k <= shift <= 53,
            d == pow2(k as nat),
        decreases shift - k,
    {
        proof {
            lemma_pow2_unfold(k as nat + 1);
            lemma_pow2_grows(k as nat, 53);
            vstd::arithmetic::power2::lemma2_to64_rest();
        }
        d = 2 * d;
        k += 1;
    }
    proof {
        lemma_pow2_grows(30, shift as nat);
        lemma_pow2_grows(shift as nat, 53);
    }
    let q: u64 = s / d;
    let t: u64 = s % d;
    proof {
        lemma_fields(s as nat, d as nat);
        assert(q < 0x80_0000) by (nonlinear_arith)
            requires
                q * d <= s,
                s < 0x20_0000_0000_0000,
                d >= 0x4000_0000,
        ;
        lemma_magnitude_step(q as nat, SINGLE_FRACTION as nat);
        lemma_scale(q as nat, shift as nat, (e - 1) as nat);
        lemma_scale((q + 1) as nat, shift as nat, (e - 1) as nat);
        assert(shift + (e - 1) == 925);
        lemma_round_choice(s as nat, (e - 1) as nat, q as nat, q as nat, t as nat, d as nat);
    }
    let up: bool = t > d - t || (t == d - t && q % 2 == 1);
    if up {
        q as u32 + 1
    } else {
        q as u32
    }
}

/// `r` is `b` rounded to single precision, to the nearest value and to the even
/// one of two equally near. The sign stays as it is; what is not a number stays
/// so.
pub open spec fn is_narrowing(b: u64, r: u32) -> bool {
    &&& double_is_nan(b) ==> r == SINGLE_NAN
    &&& !double_is_nan(b) ==> (r >= 0x8000_0000 <==> b >= 0x8000_0000_0000_0000)
    &&& b % 0x8000_0000_0000_0000 == 0x7FF0_0000_0000_0000 ==> r % 0x8000_0000 == SINGLE_INFINITY
    &&& b % 0x8000_0000_0000_0000 < 0x7FF0_0000_0000_0000 ==> is_nearest_single(
        double_magnitude(b),
        (r % 0x8000_0000) as nat,
    )
}

/// `b` rounded to single precision.
pub open spec fn narrowed(b: u64) -> u32 {
    choose|r: u32| is_narrowing(b, r)
}

/// A pattern has at most one narrowing.
pub proof fn law_narrowing_is_unique(b: u64, x: u32, y: u32)
    requires
        is_narrowing(b, x),
        is_narrowing(b, y),
    ensures
        x == y,
{
    if b % 0x8000_0000_0000_0000 < 0x7FF0_0000_0000_0000 {
        law_nearest_single_is_unique(
            double_magnitude(b),
            (x % 0x8000_0000) as nat,
            (y % 0x8000_0000) as nat,
        );
    }
}

/// Rounds a double-precision pattern to single precision.
pub fn narrow_double(b: u64) -> (r: u32)
    ensures
        is_narrowing(b, r),
        r == narrowed(b),
{
    let r: u32 = narrow(b);
    proof {
        law_narrowing_is_unique(b, r, narrowed(b));
    }
    r
}

fn narrow(b: u64) -> (r: u32)
    ensures
        is_narrowing(b, r),
{
    let m: u64 = b % 0x8000_0000_0000_0000;
    let sign: u32 = if b >= 0x8000_0000_0000_0000 {
        0x8000_0000
    } else {
        0
    };
    if m > 0x7FF0_0000_0000_0000 {
        return SINGLE_NAN;
    }
    if m == 0x7FF0_0000_0000_0000 {
        return sign + SINGLE_INFINITY;
    }
    sign + narrow_finite(m)
}

/// Rounds a finite double-precision pattern without its sign.
fn narrow_finite(m: u64) -> (r: u32)
    requires
        m < 0x7FF0_0000_0000_0000,
    ensures
        is_nearest_single(magnitude(m as nat, DOUBLE_FRACTION as nat), r as nat),
{
    let e: u64 = m / DOUBLE_FRACTION;
    let f: u64 = m % DOUBLE_FRACTION;
    let ghost x = magnitude(m as nat, DOUBLE_FRACTION as nat);
    if e == 0 {
        proof {
            vstd::arithmetic::power2::lemma2_to64();
            vstd::arithmetic::power2::lemma2_to64_rest();
            lemma_magnitude_step(0, SINGLE_FRACTION as nat);
            lemma_pow2_grows(54, 925);
            assert(0 * pow2(925) == 0);
            assert(1 * pow2(925) == pow2(925));
            lemma_nearest_single(x, 0, false);
        }
        return 0;
    }
    let s: u64 = DOUBLE_FRACTION + f;
    assert(x == s * pow2((e - 1) as nat));
    if e >= 1151 {
        proof {
            lemma_overflow(s as nat, e as nat);
        }
        return SINGLE_INFINITY;
    }
    if e >= 897 {
        return round_normal(s, e);
    }
    if e <= 872 {
        proof {
            lemma_underflow(s as nat, e as nat);
        }
        return 0;
    }
    round_subnormal(s, e)
}

proof fn lemma_overflow(s: nat, e: nat)
    requires
        s >= DOUBLE_FRACTION,
        e >= 1151,
    ensures
        is_nearest_single(s * pow2((e - 1) as nat), SINGLE_INFINITY as nat),
{
    let w = SINGLE_FRACTION as nat;
    lemma_normal(255, 0, w);
    lemma_scale(w, 254, 925);
    vstd::arithmetic::power2::lemma2_to64_rest();
    vstd::arithmetic::power2::lemma2_to64();
    lemma_scale(1, 23, 1179);
    lemma_scale(1, 52, 1150);
    let p = pow2((e - 1) as nat);
    lemma_pow2_grows(1150, (e - 1) as nat);
    let c = pow2(1150);
    assert(s * p >= 0x10_0000_0000_0000 * c) by (nonlinear_arith)
        requires
            s >= 0x10_0000_0000_0000,
            p >= c,
    ;
    lemma_single_in_double_units((SINGLE_INFINITY - 1) as nat, SINGLE_INFINITY as nat);
    assert(255 * w == SINGLE_INFINITY);
    assert(single_in_double_units(SINGLE_INFINITY as nat) == pow2(1202));
}

proof fn lemma_underflow(s: nat, e: nat)
    requires
        s < 2 * DOUBLE_FRACTION,
        1 <= e <= 872,
    ensures
        is_nearest_single(s * pow2((e - 1) as nat), 0),
{
    let p = pow2((e - 1) as nat);
    lemma_pow2_grows((e - 1) as nat, 871);
    lemma_pow2_pos((e - 1) as nat);
    vstd::arithmetic::power2::lemma2_to64_rest();
    vstd::arithmetic::power2::lemma2_to64();
    lemma_magnitude_step(0, SINGLE_FRACTION as nat);
    lemma_scale(1, 54, 871);
    let c = pow2(871);
    assert(2 * (s * p) < 0x40_0000_0000_0000 * c) by (nonlinear_arith)
        requires
            s < 0x20_0000_0000_0000,
            0 < p <= c,
    ;
    assert(0 * pow2(925) == 0);
    assert(1 * pow2(925) == pow2(925));
    lemma_nearest_single(s * p, 0, false);
}

/// By how many bits `x` is longer than `p`.
pub open spec fn excess(x: nat, p: nat) -> nat
    decreases x,
{
    if x == 0 || x < pow2(p) {
        0
    } else {
        1 + excess(x / 2, p)
    }
}

/// `x` rounded to `p` significant bits, to the even one of two equally near.
pub open spec fn round_to_bits(x: nat, p: nat) -> nat {
    let unit = pow2(excess(x, p));
    let q = x / unit;
    let t = x % unit;
    if 2 * t > unit || (2 * t == unit && q % 2 == 1) {
        (q + 1) * unit
    } else {
        q * unit
    }
}

/// Rounds `x` to `p` significant bits, as a number of at most `top = 2^p` and a
/// power of two that it counts.
pub fn rounded(x: u128, p: u32, top: u128) -> (r: (u128, u32))
    requires
        1 <= p <= 100,
        top == pow2(p as nat),
    ensures
        r.0 * pow2(r.1 as nat) == round_to_bits(x as nat, p as nat),
        r.0 <= top,
        r.1 == excess(x as nat, p as nat),
        r.0 == 0 <==> x == 0,
        x < top ==> r.0 == x && r.1 == 0,
        r.1 > 0 ==> 2 * r.0 >= top,
{
    let mut q: u128 = x;
    let mut s: u32 = 0;
    let mut unit: u128 = 1;
    let mut t: u128 = 0;
    proof {
        vstd::arithmetic::power2::lemma2_to64();
        lemma_pow2_grows(1, p as nat);
        lemma_pow2_unfold(p as nat);
    }
    while q >= top
        invariant
            unit == pow2(s as nat),
            top == pow2(p as nat),
            top >= 2,
            top % 2 == 0,
            x == q * unit + t,
            t < unit,
            s < 1000,
            s > 0 ==> 2 * q >= top,
            excess(x as nat, p as nat) == s + excess(q as nat, p as nat),
        decreases q,
    {
        proof {
            let h = q / 2;
            let b = q % 2;
            assert(q == 2 * h + b);
            assert(q * unit == h * (2 * unit) + b * unit) by (nonlinear_arith)
                requires
                    q == 2 * h + b,
            ;
            assert(2 * unit <= x) by (nonlinear_arith)
                requires
                    x == q * unit + t,
                    q >= 2,
                    t >= 0,
                    unit >= 0,
            ;
            assert(b == 0 ==> b * unit == 0) by (nonlinear_arith);
            assert(b == 1 ==> b * unit == unit) by (nonlinear_arith);
            lemma_pow2_unfold(s as nat + 1);
            if s >= 128 {
                lemma_pow2_grows(128, s as nat);
                lemma_pow2_adds(64, 64);
                vstd::arithmetic::power2::lemma2_to64();
            }
        }
        if q % 2 == 1 {
            t = t + unit;
        }
        q = q / 2;
        unit = 2 * unit;
        s += 1;
    }
    proof {
        assert(x as int == q * unit + t);
        vstd::arithmetic::div_mod::lemma_fundamental_div_mod_converse(
            x as int,
            unit as int,
            q as int,
            t as int,
        );
        if x == 0 {
            assert(q == 0) by (nonlinear_arith)
                requires
                    0 == q * unit + t,
                    q >= 0,
                    t >= 0,
                    unit >= 1,
            ;
        }
        if s == 0 {
            assert(q * 1 == q);
        }
    }
    if t > unit - t || (t == unit - t && q % 2 == 1) {
        (q + 1, s)
    } else {
        (q, s)
    }
}

/// `x` rounded to the significant bits of double precision.
pub fn round_double(x: u128) -> (r: u128)
    requires
        x < 0x10_0000_0000_0000_0000_0000_0000,
    ensures
        r == round_to_bits(x as nat, 53),
        r <= 2 * x,
{
    proof {
        vstd::arithmetic::power2::lemma2_to64();
        vstd::arithmetic::power2::lemma2_to64_rest();
        lemma_pow2_adds(50, 50);
        lemma_excess_bound(x as nat, 53, 100);
        lemma_round_grows(x as nat, 53);
    }
    let (q, s) = rounded(x, 53, 0x20_0000_0000_0000);
    let unit: u128 = power(s);
    q * unit
}

proof fn lemma_excess_unit(x: nat, p: nat)
    requires
        x > 0,
        p > 0,
    ensures
        pow2(excess(x, p)) <= x,
    decreases x,
{
    vstd::arithmetic::power2::lemma2_to64();
    if x >= pow2(p) {
        lemma_pow2_grows(1, p);
        lemma_excess_unit(x / 2, p);
        lemma_pow2_unfold(1 + excess(x / 2, p));
    }
}

/// Rounding at most doubles.
pub proof fn lemma_round_grows(x: nat, p: nat)
    requires
        p > 0,
    ensures
        round_to_bits(x, p) <= 2 * x,
{
    let unit = pow2(excess(x, p));
    let q = x / unit;
    lemma_pow2_pos(excess(x, p));
    lemma_fields(x, unit);
    if x > 0 {
        lemma_excess_unit(x, p);
        assert((q + 1) * unit == q * unit + unit) by (nonlinear_arith);
    } else {
        vstd::arithmetic::power2::lemma2_to64();
    }
}

/// What fits is not rounded.
pub proof fn lemma_round_exact(x: nat, p: nat)
    requires
        x < pow2(p),
    ensures
        round_to_bits(x, p) == x,
{
    vstd::arithmetic::power2::lemma2_to64();
    assert(x / 1 == x && x % 1 == 0);
    assert(x * 1 == x);
}

/// The value of `state / 2^64` in single precision: `state` is rounded to
/// double precision, divided, and rounded again.
pub fn unit_fraction(state: u64) -> (r: u32)
    ensures
        r < 0x8000_0000,
        single_magnitude(r) == round_to_bits(round_to_bits(state as nat, 53), 24) * pow2(85),
{
    proof {
        vstd::arithmetic::power2::lemma2_to64();
        vstd::arithmetic::power2::lemma2_to64_rest();
    }
    let (a, i) = rounded(state as u128, 53, 0x20_0000_0000_0000);
    proof {
        lemma_excess_bound(state as nat, 53, 64);
        lemma_pow2_grows(i as nat, 11);
        let x = pow2(i as nat);
        assert(a * x <= 0x20_0000_0000_0000 * 2048) by (nonlinear_arith)
            requires
                a <= 0x20_0000_0000_0000,
                0 <= x <= 2048,
        ;
    }
    let unit: u128 = power(i);
    let wide: u128 = a * unit;
    let (q, s) = rounded(wide, 24, 0x100_0000);
    if q == 0 {
        assert(0 * pow2(s as nat) == 0);
        assert(0 * pow2(85) == 0);
        return 0;
    }
    let ghost value = round_to_bits(round_to_bits(state as nat, 53), 24);
    proof {
        lemma_pow2_unfold(65);
        lemma_excess_bound(wide as nat, 24, 65);
    }
    let (g, x): (u32, u32) = if q == 0x100_0000 {
        proof {
            lemma_pow2_unfold(s as nat + 1);
            let c = pow2(s as nat);
            assert(0x100_0000 * c == 0x80_0000 * (2 * c)) by (nonlinear_arith);
            lemma_scale(0x80_0000, s as nat + 1, 85);
        }
        (0x80_0000, s + 87)
    } else if q >= 0x80_0000 {
        proof {
            lemma_scale(q as nat, s as nat, 85);
        }
        (q as u32, s + 86)
    } else {
        assert(s == 0);
        let (g, k) = normalise(q as u64, 0x80_0000, 23);
        proof {
            assert(q * 1 == q);
            lemma_scale(q as nat, k as nat, (85 - k) as nat);
        }
        (g as u32, 86 - k)
    };
    assert(g * pow2((x - 1) as nat) == value * pow2(85));
    let fraction: u32 = g - SINGLE_FRACTION;
    let r: u32 = x * SINGLE_FRACTION + fraction;
    proof {
        lemma_normal(x as nat, fraction as nat, SINGLE_FRACTION as nat);
    }
    r
}

/// `2^i`.
fn power(i: u32) -> (r: u128)
    requires
        i <= 120,
    ensures
        r == pow2(i as nat),
{
    let mut r: u128 = 1;
    let mut k: u32 = 0;
    proof {
        vstd::arithmetic::power2::lemma2_to64();
    }
    while k < i
        invariant
            k <= i <= 120,
            r == pow2(k as nat),
        decreases i - k,
    {
        proof {
            lemma_pow2_unfold(k as nat + 1);
            lemma_pow2_grows(k as nat, 120);
            lemma_pow2_adds(60, 60);
            vstd::arithmetic::power2::lemma2_to64_rest();
        }
        r = 2 * r;
        k += 1;
    }
    r
}

proof fn lemma_excess_bound(x: nat, p: nat, b: nat)
    requires
        x < pow2(b),
        p <= b,
    ensures
        excess(x, p) <= b - p,
    decreases b - p,
{
    if x == 0 || x < pow2(p) {
    } else if b > p {
        lemma_pow2_unfold(b);
        lemma_excess_bound(x / 2, p, (b - 1) as nat);
    }
}

/// Rounding does not go past a power of two.
pub proof fn lemma_round_within(x: nat, p: nat, b: nat)
    requires
        x <= pow2(b),
        0 < p <= b,
    ensures
        round_to_bits(x, p) <= pow2(b),
{
    let e = excess(x, p);
    let unit = pow2(e);
    lemma_pow2_pos(e);
    lemma_pow2_pos(b);
    lemma_fields(x, unit);
    let q = x / unit;
    if x == pow2(b) {
        lemma_excess_unit(x, p);
        if e > b {
            vstd::arithmetic::power2::lemma_pow2_strictly_increases(b, e);
        }
        let c = pow2((b - e) as nat);
        lemma_pow2_adds(e, (b - e) as nat);
        vstd::arithmetic::div_mod::lemma_fundamental_div_mod_converse(
            x as int,
            unit as int,
            c as int,
            0,
        );
    } else {
        lemma_excess_bound(x, p, b);
        let c = pow2((b - e) as nat);
        lemma_pow2_adds(e, (b - e) as nat);
        assert(q < c) by (nonlinear_arith)
            requires
                q * unit <= x,
                x < unit * c,
                unit > 0,
        ;
        assert((q + 1) * unit <= unit * c) by (nonlinear_arith)
            requires
                q + 1 <= c,
                unit > 0,
        ;
        assert(q * unit <= (q + 1) * unit) by (nonlinear_arith)
            requires
                unit > 0,
        ;
    }
}

/// The values of patterns, from the bottom up: the lowest patterns stand for the integers in
/// order, and from there on raising the exponent by one doubles the value.
pub proof fn law_exponents_double_the_value(m: nat, w: nat)
    requires
        w > 0,
    ensures
        m < 2 * w ==> magnitude(m, w) == m,
        m >= w ==> magnitude(m + w, w) == 2 * magnitude(m, w),
{
    vstd::arithmetic::div_mod::lemma_fundamental_div_mod(m as int, w as int);
    if m >= w {
        let (q, r) = (m / w, m % w);
        vstd::arithmetic::div_mod::lemma_div_non_zero(m as int, w as int);
        assert(w * (q + 1) == w * q + w) by (nonlinear_arith);
        vstd::arithmetic::div_mod::lemma_fundamental_div_mod_converse(
            (m + w) as int,
            w as int,
            (q + 1) as int,
            r as int,
        );
        if m < 2 * w {
            assert(w * 1 == w);
            vstd::arithmetic::div_mod::lemma_fundamental_div_mod_converse(
                m as int,
                w as int,
                1,
                m - w,
            );
            vstd::arithmetic::power2::lemma2_to64();
            assert(q == 1 && r == m - w);
            assert(pow2((q - 1) as nat) == 1);
            assert((w + r) * 1 == m);
        }
        let k = (q - 1) as nat;
        vstd::arithmetic::power2::lemma_pow2_unfold(k + 1);
        let (a, b) = (w + r, pow2(k));
        assert(a * (2 * b) == 2 * (a * b)) by (nonlinear_arith);
    }
}

/// A half-precision number of full precision keeps its fields: the sign stays in front, the
/// fraction moves up by thirteen bits, and the exponent is counted from 127 in place of 15.
/// Zero and infinity keep their sign.
pub proof fn law_halves_keep_their_fields(b: u16)
    requires
        b % 0x8000 == 0 || 0x400 <= b % 0x8000 <= 0x7C00,
    ensures
        half_widened(b) == (if b >= 0x8000 {
            0x8000_0000int
        } else {
            0
        }) + (if b % 0x8000 == 0 {
            0int
        } else if b % 0x8000 == 0x7C00 {
            0x7F80_0000
        } else {
            (b % 0x8000) * 0x2000 + 0x3800_0000
        }),
{
    let m = (b % 0x8000) as nat;
    let low: int = if m == 0 {
        0
    } else if m == 0x7C00 {
        0x7F80_0000
    } else {
        (m * 0x2000 + 0x3800_0000) as int
    };
    let r = (low + if b >= 0x8000 {
        0x8000_0000int
    } else {
        0
    }) as u32;
    assert(r % 0x8000_0000 == low);
    if m == 0 {
        assert(single_magnitude(r) == 0 && half_magnitude(b) == 0);
        assert(0 * pow2(125) == 0);
    } else if m < 0x7C00 {
        let (e, f) = (m / 0x400, m % 0x400);
        assert(m == 0x400 * e + f);
        assert(low == 0x80_0000 * (e + 112) + f * 0x2000);
        assert(low / 0x80_0000 == e + 112 && low % 0x80_0000 == f * 0x2000);
        lemma_pow2_adds(13, e + 111);
        lemma_pow2_adds((e - 1) as nat, 125);
        vstd::arithmetic::power2::lemma2_to64();
        let (x, y, z) = (0x400 + f, pow2(13), pow2(e + 111));
        assert(0x80_0000 + f * 0x2000 == x * 0x2000);
        assert((x * y) * z == x * (y * z)) by (nonlinear_arith);
        let (u, v) = (pow2((e - 1) as nat), pow2(125));
        assert((x * u) * v == x * (u * v)) by (nonlinear_arith);
        assert(single_magnitude(r) == (0x80_0000 + f * 0x2000) * z);
        assert(half_magnitude(b) == x * u);
    }
    assert(is_half_widening(b, r));
    law_half_widening_is_unique(b, r, half_widened(b));
}

/// Rounding to `p` bits goes to a number near by: it is off by no more than one part in two to
/// the power of `p`, and numbers of `p` bits stay as they are.
pub proof fn law_rounding_stays_near(x: nat, p: nat)
    requires
        p > 0,
    ensures
        x < pow2(p) ==> round_to_bits(x, p) == x,
        (round_to_bits(x, p) - x) * pow2(p) <= x,
        (x - round_to_bits(x, p)) * pow2(p) <= x,
{
    if x < pow2(p) {
        lemma_round_exact(x, p);
        assert(0 * pow2(p) == 0);
    } else {
        let e = excess(x, p);
        let unit = pow2(e);
        lemma_pow2_pos(e);
        lemma_pow2_pos(p);
        lemma_excess_unit(x, p);
        lemma_fields(x, unit);
        let (q, t) = (x / unit, x % unit);
        assert((q + 1) * unit == q * unit + unit) by (nonlinear_arith);
        let r = round_to_bits(x, p);
        lemma_pow2_unfold(p);
        let half = pow2((p - 1) as nat);
        let d = if r >= x {
            r - x
        } else {
            x - r
        };
        assert(2 * d <= unit);
        assert(d * (2 * half) <= unit * half) by (nonlinear_arith)
            requires
                2 * d <= unit,
                half >= 0,
        ;
        lemma_excess_fills(x, p);
        let m = -d;
        assert(m * (2 * half) <= 0) by (nonlinear_arith)
            requires
                m <= 0,
                half >= 0,
        ;
    }
}

proof fn lemma_excess_fills(x: nat, p: nat)
    requires
        p > 0,
        x >= pow2(p),
    ensures
        pow2(excess(x, p)) * pow2((p - 1) as nat) <= x,
    decreases x,
{
    lemma_pow2_pos(p);
    lemma_pow2_unfold(p);
    let half = pow2((p - 1) as nat);
    let e = excess(x / 2, p);
    assert(excess(x, p) == 1 + e);
    lemma_pow2_unfold(1 + e);
    let u = pow2(e);
    assert((2 * u) * half == 2 * (u * half)) by (nonlinear_arith);
    if x / 2 < pow2(p) {
        vstd::arithmetic::power2::lemma2_to64();
        assert(1 * half == half);
    } else {
        lemma_excess_fills(x / 2, p);
    }
}

} // verus!
