//! Saturating fixed-point arithmetic on `i64` with a 2^16 scale.
//!
//! A value `v: i64` stands for the real number `v / SCALE`. Every operation
//! clips its result into `[-FX_MAX, FX_MAX]` and rounds quotients toward
//! zero, and every executable operation is pinned exactly to a spec-level
//! mirror, so the geometry built on top has fully determined contracts.

use vstd::prelude::*;

verus! {

/// Number of fixed-point units per whole unit (2^16).
pub const SCALE: i64 = 65536;

/// Largest magnitude a fixed-point value may take (2^60).
pub const FX_MAX: i64 = 1152921504606846976;

/// Magnitude of an integer.
pub open spec fn s_abs(a: int) -> int {
    if a >= 0 { a } else { -a }
}

/// Quotient rounded toward zero (the rounding of hardware division).
pub open spec fn tdiv(a: int, b: int) -> int {
    let q = s_abs(a) / s_abs(b);
    if (a >= 0) == (b >= 0) { q } else { -q }
}

/// Saturation into the representable range.
pub open spec fn fx_clip(a: int) -> int {
    if a > FX_MAX as int {
        FX_MAX as int
    } else if a < -(FX_MAX as int) {
        -(FX_MAX as int)
    } else {
        a
    }
}

pub open spec fn fx_sum(a: int, b: int) -> int {
    fx_clip(a + b)
}

pub open spec fn fx_diff(a: int, b: int) -> int {
    fx_clip(a - b)
}

pub open spec fn fx_minus(a: int) -> int {
    fx_clip(-a)
}

/// Fixed-point product: (a * b) / SCALE, rounded toward zero, clipped.
pub open spec fn fx_prod(a: int, b: int) -> int {
    fx_clip(tdiv(a * b, SCALE as int))
}

/// Fixed-point quotient: (a * SCALE) / b, rounded toward zero, clipped.
pub open spec fn fx_quot(a: int, b: int) -> int {
    fx_clip(tdiv(a * (SCALE as int), b))
}

/// Division of a fixed-point value by a plain integer count.
pub open spec fn fx_quot_int(a: int, n: int) -> int {
    fx_clip(tdiv(a, n))
}

pub proof fn lemma_mul_range(a: int, b: int, aa: int, bb: int) by (nonlinear_arith)
    requires
        -aa <= a <= aa,
        -bb <= b <= bb,
        0 <= aa,
        0 <= bb,
    ensures
        -(aa * bb) <= a * b <= aa * bb,
{
}

pub proof fn lemma_clip_mag(x: int)
    ensures
        s_abs(fx_clip(x)) <= s_abs(x),
        -(FX_MAX as int) <= fx_clip(x) <= FX_MAX as int,
{
}

/// The product of bounded operands is bounded: |a| <= m and |b| <= n give
/// |fx_prod(a, b)| <= (m * n) / SCALE.
pub proof fn lemma_fx_prod_le(a: int, b: int, m: int, n: int)
    requires
        -m <= a <= m,
        -n <= b <= n,
        0 <= m,
        0 <= n,
    ensures
        -((m * n) / (SCALE as int)) <= fx_prod(a, b) <= (m * n) / (SCALE as int),
{
    lemma_mul_range(a, b, m, n);
    let p = a * b;
    vstd::arithmetic::div_mod::lemma_div_is_ordered(s_abs(p), m * n, SCALE as int);
    vstd::arithmetic::div_mod::lemma_div_pos_is_pos(s_abs(p), SCALE as int);
    vstd::arithmetic::div_mod::lemma_div_pos_is_pos(m * n, SCALE as int);
    lemma_clip_mag(tdiv(p, SCALE as int));
}

/// The sum of bounded operands is bounded by the sum of the bounds.
pub proof fn lemma_fx_sum_le(a: int, b: int)
    ensures
        s_abs(fx_sum(a, b)) <= s_abs(a) + s_abs(b),
        s_abs(fx_diff(a, b)) <= s_abs(a) + s_abs(b),
{
    lemma_clip_mag(a + b);
    lemma_clip_mag(a - b);
}

fn clip128(s: i128) -> (r: i64)
    ensures
        r as int == fx_clip(s as int),
{
    if s > FX_MAX as i128 {
        FX_MAX
    } else if s < -(FX_MAX as i128) {
        -FX_MAX
    } else {
        s as i64
    }
}

pub fn fx_add(a: i64, b: i64) -> (r: i64)
    ensures
        r as int == fx_sum(a as int, b as int),
{
    clip128(a as i128 + b as i128)
}

pub fn fx_sub(a: i64, b: i64) -> (r: i64)
    ensures
        r as int == fx_diff(a as int, b as int),
{
    clip128(a as i128 - b as i128)
}

pub fn fx_neg(a: i64) -> (r: i64)
    ensures
        r as int == fx_minus(a as int),
{
    clip128(-(a as i128))
}

/// Magnitude of an `i128`, as `u128`.
fn mag128(p: i128) -> (m: u128)
    ensures
        m as int == s_abs(p as int),
{
    if p >= 0 {
        p as u128
    } else {
        proof {
            assert(p as int >= i128::MIN);
        }
        (-(p + 1)) as u128 + 1
    }
}

/// Reattach a sign to a nonnegative magnitude and clip.
fn signed_clip(q: u128, negative: bool) -> (r: i64)
    ensures
        r as int == fx_clip(if negative { -(q as int) } else { q as int }),
{
    if q > FX_MAX as u128 {
        if negative { -FX_MAX } else { FX_MAX }
    } else {
        if negative { -(q as i64) } else { q as i64 }
    }
}

pub fn fx_mul(a: i64, b: i64) -> (r: i64)
    ensures
        r as int == fx_prod(a as int, b as int),
{
    proof {
        lemma_mul_range(a as int, b as int, 0x8000000000000000, 0x8000000000000000);
    }
    let p: i128 = (a as i128) * (b as i128);
    let m: u128 = mag128(p);
    let q: u128 = m / 65536u128;
    proof {
        assert(q as int == s_abs(a as int * b as int) / (SCALE as int));
        assert((p < 0) == ((a as int * b as int) < 0));
    }
    signed_clip(q, p < 0)
}

pub fn fx_div(a: i64, b: i64) -> (r: i64)
    requires
        b != 0,
    ensures
        r as int == fx_quot(a as int, b as int),
{
    proof {
        lemma_mul_range(a as int, SCALE as int, 0x8000000000000000, 65536);
    }
    let p: i128 = (a as i128) * (SCALE as i128);
    let m: u128 = mag128(p);
    let d: u128 = mag128(b as i128);
    let q: u128 = m / d;
    proof {
        assert(q as int == s_abs(a as int * (SCALE as int)) / s_abs(b as int));
        assert(((p < 0) != (b < 0)) == (((a as int * (SCALE as int)) >= 0) != ((b as int) >= 0))
            || q == 0);
    }
    signed_clip(q, (p < 0) != (b < 0))
}

pub fn fx_div_int(a: i64, n: i64) -> (r: i64)
    requires
        n > 0,
    ensures
        r as int == fx_quot_int(a as int, n as int),
{
    let m: u128 = mag128(a as i128);
    let q: u128 = m / (n as u128);
    signed_clip(q, a < 0)
}

/// `r` is the integer square root of `a * SCALE`, which makes it the
/// fixed-point square root of `a`, rounded down.
pub open spec fn is_fx_sqrt(a: int, r: int) -> bool {
    0 <= r && r * r <= a * (SCALE as int) && a * (SCALE as int) < (r + 1) * (r + 1)
}

pub open spec fn fx_sqrt_spec(a: int) -> int {
    choose|r: int| is_fx_sqrt(a, r)
}

/// A witness pins the chosen square root down.
pub proof fn lemma_fx_sqrt_spec_is(a: int, r: int)
    requires
        is_fx_sqrt(a, r),
    ensures
        fx_sqrt_spec(a) == r,
{
    let w = fx_sqrt_spec(a);
    assert(is_fx_sqrt(a, w));
    lemma_sqrt_unique(a * (SCALE as int), r, w);
}

pub proof fn lemma_sqrt_unique(x: int, r1: int, r2: int) by (nonlinear_arith)
    requires
        0 <= r1,
        r1 * r1 <= x,
        x < (r1 + 1) * (r1 + 1),
        0 <= r2,
        r2 * r2 <= x,
        x < (r2 + 1) * (r2 + 1),
    ensures
        r1 == r2,
{
}

fn isqrt_u128(x: u128) -> (r: u64)
    requires
        x < 0x40000000000000000000000000000000u128,
    ensures
        (r as int) * (r as int) <= x as int,
        (x as int) < ((r as int) + 1) * ((r as int) + 1),
{
    let mut lo: u128 = 0;
    let mut hi: u128 = 0x8000000000000000u128;
    proof {
        assert((hi as int) * (hi as int) == 0x40000000000000000000000000000000) by (nonlinear_arith)
            requires hi == 0x8000000000000000u128;
    }
    while lo + 1 < hi
        invariant
            lo < hi,
            hi <= 0x8000000000000000u128,
            (lo as int) * (lo as int) <= x as int,
            (x as int) < (hi as int) * (hi as int),
        decreases hi - lo,
    {
        let mid: u128 = lo + (hi - lo) / 2;
        proof {
            assert((mid as int) * (mid as int) <= 0x40000000000000000000000000000000) by (nonlinear_arith)
                requires mid <= 0x8000000000000000u128;
        }
        if mid * mid <= x {
            lo = mid;
        } else {
            hi = mid;
        }
    }
    proof {
        assert(hi == lo + 1);
        assert(lo < 0x10000000000000000u128);
    }
    lo as u64
}

pub fn fx_sqrt(a: i64) -> (r: i64)
    requires
        a >= 0,
    ensures
        is_fx_sqrt(a as int, r as int),
        r as int == fx_sqrt_spec(a as int),
        0 <= r,
{
    let m: u128 = (a as u128) * 65536u128;
    proof {
        assert((a as u128) * 65536u128 < 0x40000000000000000000000000000000u128) by (nonlinear_arith)
            requires a as u128 <= 0x8000000000000000u128;
    }
    let s: u64 = isqrt_u128(m);
    proof {
        assert(s < 0x10000000000u64) by (nonlinear_arith)
            requires (s as int) * (s as int) <= m as int, m as int <= 0x80000000000000000000i128 as int;
        assert(is_fx_sqrt(a as int, s as int));
        let w = fx_sqrt_spec(a as int);
        assert(is_fx_sqrt(a as int, w));
        lemma_sqrt_unique(a as int * (SCALE as int), s as int, w);
    }
    s as i64
}

} // verus!
