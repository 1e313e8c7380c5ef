//! Saturating fixed-point arithmetic on `i64` raw values.
//!
//! A raw value `x` stands for the world quantity `x / SCALE`. Results of
//! every operation are clipped into `[-FX_MAX, FX_MAX]`, so stored values
//! stay well inside `i64` and products of two raw values fit in `i128`.

use vstd::prelude::*;

verus! {

/// Raw units per world unit.
pub const SCALE: i64 = 1_000_000;

/// Largest representable raw magnitude: 2^62 - 1.
pub const FX_MAX: i64 = 0x3fff_ffff_ffff_ffff;

/// Truncating (round-toward-zero) division, total in spec; meaningful for
/// `b != 0`. The case split mirrors how Rust's `/` acts on signed integers.
pub open spec fn tdiv(a: int, b: int) -> int {
    if a == 0 {
        0
    } else if a > 0 && b > 0 {
        a / b
    } else if a < 0 && b < 0 {
        (a * -1) / (b * -1)
    } else if a < 0 {
        ((a * -1) / b) * -1
    } else {
        (a / (b * -1)) * -1
    }
}

/// Clip into the representable band `[-FX_MAX, FX_MAX]`.
pub open spec fn clip(x: int) -> int {
    if x > FX_MAX as int {
        FX_MAX as int
    } else if x < -(FX_MAX as int) {
        -(FX_MAX as int)
    } else {
        x
    }
}

/// A well-formed raw value lies in the representable band.
pub open spec fn fx_wf(x: i64) -> bool {
    -(FX_MAX as int) <= x as int <= FX_MAX as int
}

/// Raw addition: `a + b`, clipped.
pub open spec fn s_add(a: int, b: int) -> int {
    clip(a + b)
}

/// Raw subtraction: `a - b`, clipped.
pub open spec fn s_sub(a: int, b: int) -> int {
    clip(a - b)
}

/// Fixed-point product: `(a * b) / SCALE` truncated, clipped.
pub open spec fn s_mul(a: int, b: int) -> int {
    clip(tdiv(a * b, SCALE as int))
}

/// Fixed-point quotient: `(a * SCALE) / b` truncated, clipped.
pub open spec fn s_div(a: int, b: int) -> int {
    clip(tdiv(a * SCALE, b))
}

/// Truncating division keeps the result between 0 and the dividend.
pub proof fn lemma_tdiv_bounds(a: int, b: int)
    requires
        b >= 1,
    ensures
        a >= 0 ==> 0 <= tdiv(a, b) <= a,
        a < 0 ==> a <= tdiv(a, b) <= 0,
{
    if a > 0 {
        vstd::arithmetic::div_mod::lemma_div_pos_is_pos(a, b);
        vstd::arithmetic::div_mod::lemma_div_nonincreasing(a, b);
    } else if a < 0 {
        vstd::arithmetic::div_mod::lemma_div_pos_is_pos(a * -1, b);
        vstd::arithmetic::div_mod::lemma_div_nonincreasing(a * -1, b);
    }
}

/// Truncating division is unchanged when both operands are negated.
pub proof fn lemma_tdiv_neg(a: int, b: int)
    ensures
        tdiv(a * -1, b * -1) == tdiv(a, b),
{
}

/// Dividing an exact multiple recovers the factor: `(x * b) / b == x`.
pub proof fn lemma_tdiv_multiple(x: int, b: int)
    requires
        b >= 1,
    ensures
        tdiv(x * b, b) == x,
{
    if x > 0 {
        vstd::arithmetic::div_mod::lemma_div_multiples_vanish(x, b);
    } else if x < 0 {
        assert((x * b) * -1 == (x * -1) * b) by (nonlinear_arith);
        vstd::arithmetic::div_mod::lemma_div_multiples_vanish(x * -1, b);
        assert(x * b < 0) by (nonlinear_arith)
            requires x < 0 && b >= 1;
    }
}

/// Equal rationals have equal quotients: `a/b == c/d` whenever
/// `a * d == c * b` with both divisors positive.
pub proof fn lemma_div_rational_eq(a: int, b: int, c: int, d: int)
    requires
        b >= 1,
        d >= 1,
        a * d == c * b,
    ensures
        a / b == c / d,
{
    vstd::arithmetic::div_mod::lemma_fundamental_div_mod(a, b);
    let q = a / b;
    let r = a % b;
    let r2 = c - q * d;
    assert(r2 * b == r * d) by (nonlinear_arith)
        requires
            a == b * q + r && a * d == c * b && r2 == c - q * d;
    assert(0 <= r2 && r2 < d) by (nonlinear_arith)
        requires
            r2 * b == r * d && 0 <= r < b && b >= 1 && d >= 1;
    vstd::arithmetic::div_mod::lemma_fundamental_div_mod_converse_div(c, d, q, r2);
    assert(c == q * d + r2) by (nonlinear_arith)
        requires
            r2 == c - q * d;
}

/// Equal rationals have equal truncating quotients, for any non-zero
/// divisors: `tdiv(a, b) == tdiv(c, d)` whenever `a * d == c * b`.
pub proof fn lemma_tdiv_rational_eq(a: int, b: int, c: int, d: int)
    requires
        b != 0,
        d != 0,
        a * d == c * b,
    ensures
        tdiv(a, b) == tdiv(c, d),
{
    if b < 0 && d < 0 {
        lemma_tdiv_neg(a, b);
        lemma_tdiv_neg(c, d);
        assert((a * -1) * (d * -1) == (c * -1) * (b * -1)) by (nonlinear_arith)
            requires
                a * d == c * b;
        lemma_tdiv_rational_pos(a * -1, b * -1, c * -1, d * -1);
    } else if b < 0 {
        lemma_tdiv_neg(a, b);
        assert((a * -1) * d == c * (b * -1)) by (nonlinear_arith)
            requires
                a * d == c * b;
        lemma_tdiv_rational_pos(a * -1, b * -1, c, d);
    } else if d < 0 {
        lemma_tdiv_neg(c, d);
        assert(a * (d * -1) == (c * -1) * b) by (nonlinear_arith)
            requires
                a * d == c * b;
        lemma_tdiv_rational_pos(a, b, c * -1, d * -1);
    } else {
        lemma_tdiv_rational_pos(a, b, c, d);
    }
}

/// `lemma_tdiv_rational_eq`, for positive divisors.
proof fn lemma_tdiv_rational_pos(a: int, b: int, c: int, d: int)
    requires
        b >= 1,
        d >= 1,
        a * d == c * b,
    ensures
        tdiv(a, b) == tdiv(c, d),
{
    assert((a >= 0 && c >= 0) || (a < 0 && c < 0) || (a == 0 || c == 0)) by (nonlinear_arith)
        requires
            a * d == c * b && b >= 1 && d >= 1;
    if a == 0 {
        assert(c * b == 0);
        assert(c == 0) by (nonlinear_arith)
            requires
                c * b == 0 && b >= 1;
    } else if c == 0 {
        assert(a * d == 0);
        assert(a == 0) by (nonlinear_arith)
            requires
                a * d == 0 && d >= 1;
    } else if a > 0 {
        assert(c > 0) by (nonlinear_arith)
            requires
                a * d == c * b && b >= 1 && d >= 1 && a > 0;
        lemma_div_rational_eq(a, b, c, d);
    } else {
        assert(c < 0) by (nonlinear_arith)
            requires
                a * d == c * b && b >= 1 && d >= 1 && a < 0;
        assert((a * -1) * d == (c * -1) * b) by (nonlinear_arith)
            requires
                a * d == c * b;
        lemma_div_rational_eq(a * -1, b, c * -1, d);
    }
}

/// The integer square root: the unique `r >= 0` with
/// `r * r <= x < (r + 1) * (r + 1)`.
pub open spec fn sqrt_floor(x: int) -> int {
    choose|r: int| 0 <= r && #[trigger] (r * r) <= x && x < (r + 1) * (r + 1)
}

/// The integer square root is unique.
pub proof fn lemma_sqrt_unique(x: int, r1: int, r2: int)
    requires
        0 <= r1 && r1 * r1 <= x && x < (r1 + 1) * (r1 + 1),
        0 <= r2 && r2 * r2 <= x && x < (r2 + 1) * (r2 + 1),
    ensures
        r1 == r2,
{
    assert(r1 == r2) by (nonlinear_arith)
        requires
            0 <= r1 && r1 * r1 <= x && x < (r1 + 1) * (r1 + 1),
            0 <= r2 && r2 * r2 <= x && x < (r2 + 1) * (r2 + 1);
}

/// Integer square root of a non-negative 128-bit value, by bisection.
pub fn isqrt(x: i128) -> (r: i128)
    requires
        x >= 0,
    ensures
        r as int == sqrt_floor(x as int),
        0 <= r,
        r * r <= x,
        x < (r + 1) * (r + 1),
{
    let u: u128 = x as u128;
    let mut lo: u128 = 0;
    let mut hi: u128 = 0x1_0000_0000_0000_0000;
    proof {
        assert((u as int) < hi * hi) by (nonlinear_arith)
            requires u as int <= 0xffff_ffff_ffff_ffff_ffff_ffff_ffff_ffff
                && hi as int == 0x1_0000_0000_0000_0000;
    }
    while lo + 1 < hi
        invariant
            lo < hi,
            hi <= 0x1_0000_0000_0000_0000,
            (lo as int) * (lo as int) <= u as int,
            (u as int) < (hi as int) * (hi as int),
        decreases hi - lo,
    {
        let mid: u128 = lo + (hi - lo) / 2;
        proof {
            assert((mid as int) * (mid as int) <= 0xffff_ffff_ffff_ffff_ffff_ffff_ffff_ffff)
                by (nonlinear_arith)
                requires 0 <= mid as int <= 0xffff_ffff_ffff_ffff;
        }
        if mid * mid <= u {
            lo = mid;
        } else {
            hi = mid;
        }
    }
    proof {
        assert(0 <= lo as int && (lo as int) * (lo as int) <= x as int && (x as int) < ((
        lo as int) + 1) * ((lo as int) + 1));
        let w = choose|r: int| 0 <= r && #[trigger] (r * r) <= x as int && (x as int) < (r + 1) * (r + 1);
        lemma_sqrt_unique(x as int, lo as int, w);
    }
    lo as i128
}

/// Clip a 128-bit intermediate back into the representable band.
fn clip_exec(x: i128) -> (r: i64)
    ensures
        r as int == clip(x as int),
        fx_wf(r),
{
    if x > FX_MAX as i128 {
        FX_MAX
    } else if x < -(FX_MAX as i128) {
        -FX_MAX
    } else {
        x as i64
    }
}

/// Truncating division on 128-bit intermediates, for a positive divisor.
fn div_trunc(a: i128, b: i128) -> (r: i128)
    requires
        b >= 1,
    ensures
        r as int == tdiv(a as int, b as int),
{
    proof {
        lemma_tdiv_bounds(a as int, b as int);
    }
    a.checked_div(b).unwrap()
}

/// Saturating fixed-point addition.
pub fn fx_add(a: i64, b: i64) -> (r: i64)
    ensures
        r as int == s_add(a as int, b as int),
        fx_wf(r),
{
    clip_exec(a as i128 + b as i128)
}

/// Saturating fixed-point subtraction.
pub fn fx_sub(a: i64, b: i64) -> (r: i64)
    ensures
        r as int == s_sub(a as int, b as int),
        fx_wf(r),
{
    clip_exec(a as i128 - b as i128)
}

/// Saturating fixed-point multiplication: `(a * b) / SCALE`, truncated.
pub fn fx_mul(a: i64, b: i64) -> (r: i64)
    ensures
        r as int == s_mul(a as int, b as int),
        fx_wf(r),
{
    proof {
        assert((a as int) * (b as int) <= 0x8000_0000_0000_0000 * 0x8000_0000_0000_0000
            && (a as int) * (b as int) >= -(0x8000_0000_0000_0000 * 0x8000_0000_0000_0000))
            by (nonlinear_arith)
            requires
                -0x8000_0000_0000_0000 <= a as int <= 0x7fff_ffff_ffff_ffff,
                -0x8000_0000_0000_0000 <= b as int <= 0x7fff_ffff_ffff_ffff;
    }
    let p: i128 = (a as i128) * (b as i128);
    clip_exec(div_trunc(p, SCALE as i128))
}

/// Saturating fixed-point division: `(a * SCALE) / b`, truncated.
pub fn fx_div(a: i64, b: i64) -> (r: i64)
    requires
        b != 0,
    ensures
        r as int == s_div(a as int, b as int),
        fx_wf(r),
{
    proof {
        assert(-0x8000_0000_0000_0000 * 1_000_000 <= (a as int) * (SCALE as int)
            && (a as int) * (SCALE as int) <= 0x8000_0000_0000_0000 * 1_000_000)
            by (nonlinear_arith)
            requires
                -0x8000_0000_0000_0000 <= a as int <= 0x7fff_ffff_ffff_ffff
                && SCALE as int == 1_000_000;
    }
    let n: i128 = (a as i128) * (SCALE as i128);
    if b < 0 {
        proof {
            lemma_tdiv_neg(n as int, b as int);
        }
        clip_exec(div_trunc(-n, -(b as i128)))
    } else {
        clip_exec(div_trunc(n, b as i128))
    }
}

/// Saturating negation.
pub fn fx_neg(a: i64) -> (r: i64)
    ensures
        r as int == clip(-(a as int)),
        fx_wf(r),
{
    clip_exec(-(a as i128))
}

} // verus!
