//! Integer rounding, clamping and rescaling.
//!
//! All channel arithmetic in the library is exact integer arithmetic.  A
//! quotient is rounded to the nearest integer, ties away from zero, written
//! `rdiv`; the linear rescale between two channel primitives multiplies by the
//! target bound and divides (rounded) by the source bound.

use vstd::prelude::*;

verus! {

use vstd::arithmetic::div_mod::{
    lemma_div_is_ordered, lemma_div_multiples_vanish_fancy, lemma_fundamental_div_mod,
    lemma_div_pos_is_pos,
};
use vstd::arithmetic::mul::lemma_mul_inequality;

/// Quotient of `n / d` rounded to the nearest integer, ties away from zero.
/// Meaningful for `d >= 1`.
pub open spec fn rdiv(n: int, d: int) -> int {
    if n >= 0 {
        (2 * n + d) / (2 * d)
    } else {
        -((2 * (-n) + d) / (2 * d))
    }
}

/// `v` forced into the interval `[lo, hi]`.
pub open spec fn clamp_int(v: int, lo: int, hi: int) -> int {
    if v < lo {
        lo
    } else if v > hi {
        hi
    } else {
        v
    }
}

/// The value `v` of a primitive with bound `from_max`, linearly rescaled to a
/// primitive with bound `to_max` and rounded to nearest.
pub open spec fn rescale(v: int, from_max: int, to_max: int) -> int {
    rdiv(v * to_max, from_max)
}

/// Rounded division never exceeds any `k` with `n <= k * d`, and never drops
/// below zero for a non-negative numerator.
pub proof fn lemma_rdiv_le(n: int, d: int, k: int)
    requires
        d >= 1,
        0 <= n,
        n <= k * d,
    ensures
        0 <= rdiv(n, d),
        rdiv(n, d) <= k,
{
    lemma_div_pos_is_pos(2 * n + d, 2 * d);
    lemma_div_is_ordered(2 * n + d, 2 * (k * d) + d, 2 * d);
    lemma_div_multiples_vanish_fancy(k, d, 2 * d);
    assert(2 * (k * d) + d == (2 * d) * k + d) by (nonlinear_arith);
}

/// A rescaled in-range value is in range for the target primitive.
pub proof fn lemma_rescale_in_range(v: int, from_max: int, to_max: int)
    requires
        from_max >= 1,
        to_max >= 0,
        0 <= v <= from_max,
    ensures
        0 <= rescale(v, from_max, to_max),
        rescale(v, from_max, to_max) <= to_max,
{
    lemma_mul_inequality(v, from_max, to_max);
    assert(from_max * to_max == to_max * from_max) by (nonlinear_arith);
    lemma_rdiv_le(v * to_max, from_max, to_max);
}

/// Rescaling a value onto its own bound changes nothing.
pub proof fn lemma_rescale_id(v: int, m: int)
    requires
        m >= 1,
        0 <= v <= m,
    ensures
        rescale(v, m, m) == v,
{
    lemma_div_multiples_vanish_fancy(v, m, 2 * m);
    assert(2 * (v * m) + m == (2 * m) * v + m) by (nonlinear_arith);
}

/// Decoding an 8-bit channel into any primitive with bound at least 255 and
/// encoding it back is exact: the canonical encoding loses nothing through a
/// wider primitive.
pub proof fn lemma_rescale_round_trip(v: int, m: int)
    requires
        0 <= v <= 255,
        m >= 255,
    ensures
        rescale(rescale(v, 255, m), m, 255) == v,
{
    if m == 255 {
        lemma_rescale_id(v, 255);
    } else {
        let x = 2 * (v * m) + 255;
        lemma_fundamental_div_mod(x, 510);
        let u = x / 510;
        let r = x % 510;
        lemma_rescale_in_range(v, 255, m);
        assert(rescale(v, 255, m) == u);
        // 510 * u == 2 * m * v + (255 - r), so the way back divides
        // 2 * m * v + (m + 255 - r) by 2 * m; the offset lies in [0, 2 * m).
        let b = m + 255 - r;
        assert(0 <= b < 2 * m);
        assert(2 * (u * 255) + m == (2 * m) * v + b) by (nonlinear_arith)
            requires
                x == 510 * u + r,
                x == 2 * (v * m) + 255,
                b == m + 255 - r,
        ;
        lemma_div_multiples_vanish_fancy(v, b, 2 * m);
        assert(rescale(u, m, 255) == v);
    }
}

/// The square of anything in `[-b, b]` lies in `[0, b * b]`.
pub proof fn lemma_square_le(a: int, b: int)
    requires
        -b <= a <= b,
    ensures
        0 <= a * a <= b * b,
{
    assert(0 <= a * a <= b * b) by (nonlinear_arith)
        requires
            -b <= a <= b,
    ;
}

/// Executable rounded division on unsigned 64-bit values.
pub fn rdiv_u64(n: u64, d: u64) -> (r: u64)
    requires
        1 <= d,
        n <= 0x4000_0000_0000_0000,
        d <= 0x4000_0000_0000_0000,
    ensures
        r == rdiv(n as int, d as int),
{
    (2 * n + d) / (2 * d)
}

/// Executable rounded division on signed 64-bit values, ties away from zero.
pub fn rdiv_i64(n: i64, d: i64) -> (r: i64)
    requires
        1 <= d,
        -0x2000_0000_0000_0000 <= n <= 0x2000_0000_0000_0000,
        d <= 0x2000_0000_0000_0000,
    ensures
        r == rdiv(n as int, d as int),
{
    if n >= 0 {
        let q: u64 = (2 * (n as u64) + (d as u64)) / (2 * (d as u64));
        q as i64
    } else {
        let m: u64 = (-n) as u64;
        let q: u64 = (2 * m + (d as u64)) / (2 * (d as u64));
        proof {
            lemma_mul_inequality(1, d as int, m as int);
            lemma_rdiv_le(m as int, d as int, m as int);
        }
        -(q as i64)
    }
}

/// Executable rounded division on signed 128-bit values, ties away from
/// zero.
pub fn rdiv_i128(n: i128, d: i128) -> (r: i128)
    requires
        1 <= d,
        -0x1_0000_0000_0000_0000_0000_0000 <= n <= 0x1_0000_0000_0000_0000_0000_0000,
        d <= 0x1_0000_0000_0000_0000_0000_0000,
    ensures
        r == rdiv(n as int, d as int),
{
    if n >= 0 {
        let q: u128 = (2 * (n as u128) + (d as u128)) / (2 * (d as u128));
        proof {
            lemma_mul_inequality(1, d as int, n as int);
            lemma_rdiv_le(n as int, d as int, n as int);
        }
        q as i128
    } else {
        let m: u128 = (-n) as u128;
        let q: u128 = (2 * m + (d as u128)) / (2 * (d as u128));
        proof {
            lemma_mul_inequality(1, d as int, m as int);
            lemma_rdiv_le(m as int, d as int, m as int);
        }
        -(q as i128)
    }
}

/// Executable rescale between two channel bounds, each at most 16 bits wide.
pub fn rescale_u32(v: u32, from_max: u32, to_max: u32) -> (r: u32)
    requires
        1 <= from_max <= 0xFFFF,
        to_max <= 0xFFFF,
        v <= from_max,
    ensures
        r == rescale(v as int, from_max as int, to_max as int),
        r <= to_max,
{
    proof {
        lemma_rescale_in_range(v as int, from_max as int, to_max as int);
        lemma_mul_inequality(v as int, 0xFFFF, to_max as int);
    }
    let n: u64 = (v as u64) * (to_max as u64);
    let q: u64 = (2 * n + (from_max as u64)) / (2 * (from_max as u64));
    q as u32
}

} // verus!
