//! Fixed-point scalars for the complex plane.
//!
//! A plane coordinate is stored as a signed 64-bit count of raw units, with
//! `FIX_ONE` raw units to one plane unit.  All rounding is stated exactly in
//! the contracts: `tdiv` is the truncating division that machine division
//! performs, and `/` on `int` (Euclidean division, which rounds toward
//! negative infinity for the positive divisors used here) states flooring.

use vstd::prelude::*;
use vstd::arithmetic::div_mod::{
    lemma_fundamental_div_mod,
    lemma_fundamental_div_mod_converse,
    lemma_div_nonincreasing,
    lemma_div_pos_is_pos,
};

verus! {

/// One plane unit in raw counts.
pub const FIX_ONE: i64 = 16777216;

/// Largest magnitude, in raw counts, of a seed or viewport-center component.
pub const SEED_LIMIT: i64 = 64 * FIX_ONE;

/// Largest escape threshold, in raw counts of squared plane units.
pub const THRESHOLD_LIMIT: i64 = 4096 * FIX_ONE;

/// Largest magnitude, in raw counts, of a running iterate's component.
/// An iterate is advanced only while its squared norm is at most the
/// threshold, so one advance plus the seed keeps components under this.
pub const ITER_LIMIT: i64 = THRESHOLD_LIMIT + SEED_LIMIT + FIX_ONE;

/// Truncating division of `a` by positive `b`: what `/` computes on the
/// machine's signed integers.
pub open spec fn tdiv(a: int, b: int) -> int
    recommends
        b > 0,
{
    if a >= 0 {
        a / b
    } else {
        -((-a) / b)
    }
}

/// Truncating division never grows magnitude and never flips sign.
pub proof fn lemma_tdiv_bounds(a: int, b: int)
    requires
        b >= 1,
    ensures
        a >= 0 ==> 0 <= tdiv(a, b) <= a,
        a < 0 ==> a <= tdiv(a, b) <= 0,
{
    if a >= 0 {
        lemma_div_nonincreasing(a, b);
        lemma_div_pos_is_pos(a, b);
    } else {
        lemma_div_nonincreasing(-a, b);
        lemma_div_pos_is_pos(-a, b);
    }
}

/// Truncating division by a positive divisor, on wide intermediates.
pub fn div_trunc_i128(a: i128, b: i128) -> (r: i128)
    requires
        b > 0,
        a > i128::MIN,
    ensures
        r == tdiv(a as int, b as int),
{
    proof {
        lemma_tdiv_bounds(a as int, b as int);
    }
    match a.checked_div(b) {
        Some(q) => q,
        None => {
            proof {
                assert(false);
            }
            0
        },
    }
}

/// Flooring division by a positive divisor.
pub fn div_floor_i64(a: i64, b: i64) -> (r: i64)
    requires
        b >= 1,
    ensures
        r == (a as int) / (b as int),
{
    let wa: i128 = a as i128;
    let wb: i128 = b as i128;
    if a >= 0 {
        let q: i128 = wa / wb;
        proof {
            lemma_div_nonincreasing(a as int, b as int);
            lemma_div_pos_is_pos(a as int, b as int);
        }
        q as i64
    } else {
        let m: i128 = -wa;
        let q: i128 = (m + wb - 1) / wb;
        proof {
            let mi = m as int;
            let bi = b as int;
            let qi = (mi + bi - 1) / bi;
            lemma_fundamental_div_mod(mi + bi - 1, bi);
            let r0 = (mi + bi - 1) % bi;
            assert(-mi == (-qi) * bi + (bi - 1 - r0)) by (nonlinear_arith)
                requires
                    mi + bi - 1 == bi * qi + r0,
            ;
            lemma_fundamental_div_mod_converse(-mi, bi, -qi, bi - 1 - r0);
            assert(a as int <= -qi <= 0) by (nonlinear_arith)
                requires
                    a as int == bi * (-qi) + (bi - 1 - r0),
                    0 <= bi - 1 - r0 < bi,
                    a < 0,
                    bi >= 1,
            ;
        }
        (-q) as i64
    }
}

/// The exact product of two 64-bit values, on a wide intermediate.
pub fn wide_mul(a: i64, b: i64) -> (r: i128)
    ensures
        r == (a as int) * (b as int),
{
    proof {
        assert((a as int) * (b as int) <= 0x8000000000000000 * 0x8000000000000000
            && (a as int) * (b as int) >= -(0x8000000000000000 * 0x8000000000000000))
            by (nonlinear_arith)
            requires
                -0x8000000000000000 <= a <= 0x7fffffffffffffff,
                -0x8000000000000000 <= b <= 0x7fffffffffffffff,
        ;
    }
    (a as i128) * (b as i128)
}

} // verus!
