//! Complex values in raw fixed-point counts, and the one nonlinear
//! operation the iteration rule needs: `z * z + c` with its squared norm.

use vstd::prelude::*;
use vstd::arithmetic::div_mod::{lemma_div_is_ordered, lemma_div_pos_is_pos};
use crate::fixed::{FIX_ONE, SEED_LIMIT, ITER_LIMIT, THRESHOLD_LIMIT, tdiv, wide_mul, div_trunc_i128};

verus! {

/// A point of the complex plane: both components in raw fixed-point counts.
#[derive(Clone, Copy, PartialEq, Eq, Structural, Debug)]
pub struct Cpx {
    pub re: i64,
    pub im: i64,
}

impl Cpx {
    /// The origin.
    pub open spec fn zero_spec() -> Cpx {
        Cpx { re: 0, im: 0 }
    }

    /// Both components within `lim` raw counts in magnitude.
    pub open spec fn bounded(self, lim: int) -> bool {
        &&& -lim <= self.re <= lim
        &&& -lim <= self.im <= lim
    }

    pub fn zero() -> (r: Cpx)
        ensures
            r == Cpx::zero_spec(),
    {
        Cpx { re: 0, im: 0 }
    }
}

/// The squared norm of `z`, in raw counts of squared plane units, floored.
pub open spec fn norm_sqr_spec(z: Cpx) -> int {
    (z.re * z.re + z.im * z.im) / (FIX_ONE as int)
}

/// The real part of `z * z + c`, the inner division truncating.
pub open spec fn sqr_add_re(z: Cpx, c: Cpx) -> int {
    tdiv(z.re * z.re - z.im * z.im, FIX_ONE as int) + c.re
}

/// The imaginary part of `z * z + c`, the inner division truncating.
pub open spec fn sqr_add_im(z: Cpx, c: Cpx) -> int {
    tdiv(2 * z.re * z.im, FIX_ONE as int) + c.im
}

/// Truncating division keeps a magnitude bound through the divisor.
proof fn lemma_tdiv_mag(a: int, bound: int, b: int)
    requires
        b >= 1,
        0 <= bound,
        -bound <= a <= bound,
    ensures
        -(bound / b) <= tdiv(a, b) <= bound / b,
{
    lemma_div_pos_is_pos(bound, b);
    if a >= 0 {
        lemma_div_is_ordered(a, bound, b);
        lemma_div_pos_is_pos(a, b);
    } else {
        lemma_div_is_ordered(-a, bound, b);
        lemma_div_pos_is_pos(-a, b);
    }
}

/// One advance from a bounded iterate and seed stays well inside the 64-bit
/// range, whether or not it escapes.
pub proof fn lemma_sqr_add_mag(z: Cpx, c: Cpx)
    requires
        z.bounded(ITER_LIMIT as int),
        c.bounded(SEED_LIMIT as int),
    ensures
        -0x4000000000000000 <= sqr_add_re(z, c) <= 0x4000000000000000,
        -0x4000000000000000 <= sqr_add_im(z, c) <= 0x4000000000000000,
{
    let rr = z.re as int;
    let ii = z.im as int;
    assert(-0x2000000000000000000 <= rr * rr - ii * ii <= 0x2000000000000000000
        && -0x4000000000000000000 <= 2 * rr * ii <= 0x4000000000000000000) by (nonlinear_arith)
        requires
            -69809995776 <= rr <= 69809995776,
            -69809995776 <= ii <= 69809995776,
    ;
    lemma_tdiv_mag(rr * rr - ii * ii, 0x2000000000000000000, FIX_ONE as int);
    lemma_tdiv_mag(2 * rr * ii, 0x4000000000000000000, FIX_ONE as int);
}

/// An iterate whose squared norm is at or under the threshold has both
/// components within `ITER_LIMIT`.
pub proof fn lemma_store_bounds(z: Cpx, t: int)
    requires
        0 <= t <= THRESHOLD_LIMIT,
        norm_sqr_spec(z) <= t,
    ensures
        z.bounded(ITER_LIMIT as int),
{
    let rr = z.re as int;
    let ii = z.im as int;
    let s = rr * rr + ii * ii;
    assert(0 <= rr * rr && 0 <= ii * ii) by (nonlinear_arith);
    vstd::arithmetic::div_mod::lemma_fundamental_div_mod(s, FIX_ONE as int);
    assert(s <= 0x1000000001000000);
    assert(-69809995776 <= rr <= 69809995776 && -69809995776 <= ii <= 69809995776)
        by (nonlinear_arith)
        requires
            0 <= rr * rr,
            0 <= ii * ii,
            rr * rr + ii * ii <= 0x1000000001000000,
    ;
}

/// The squared norm, exactly `norm_sqr_spec`.
pub fn norm_sqr(z: Cpx) -> (r: i64)
    requires
        z.bounded(ITER_LIMIT as int),
    ensures
        r == norm_sqr_spec(z),
        r >= 0,
{
    let rr: i128 = wide_mul(z.re, z.re);
    let ii: i128 = wide_mul(z.im, z.im);
    proof {
        assert(0 <= rr && 0 <= ii && rr + ii < 0x4000000000000000000) by (nonlinear_arith)
            requires
                rr == (z.re as int) * (z.re as int),
                ii == (z.im as int) * (z.im as int),
                -69809995776 <= z.re <= 69809995776,
                -69809995776 <= z.im <= 69809995776,
        ;
        lemma_div_is_ordered(rr + ii, 0x4000000000000000000, FIX_ONE as int);
        lemma_div_pos_is_pos(rr + ii, FIX_ONE as int);
    }
    let q: i128 = div_trunc_i128(rr + ii, FIX_ONE as i128);
    q as i64
}

/// The squared norm of an advanced iterate that may not have been bounded
/// yet, on a wide intermediate: exactly `norm_sqr_spec`.
pub fn norm_sqr_wide(z: Cpx) -> (r: i128)
    requires
        z.bounded(0x4000000000000000),
    ensures
        r == norm_sqr_spec(z),
        r >= 0,
{
    let rr: i128 = wide_mul(z.re, z.re);
    let ii: i128 = wide_mul(z.im, z.im);
    proof {
        assert(0 <= rr && 0 <= ii
            && rr + ii < 0x40000000000000000000000000000000) by (nonlinear_arith)
            requires
                rr == (z.re as int) * (z.re as int),
                ii == (z.im as int) * (z.im as int),
                -0x4000000000000000 <= z.re <= 0x4000000000000000,
                -0x4000000000000000 <= z.im <= 0x4000000000000000,
        ;
        lemma_div_pos_is_pos(rr + ii, FIX_ONE as int);
    }
    div_trunc_i128(rr + ii, FIX_ONE as i128)
}

/// One application of the iteration rule: `z * z + c`, exactly the spec pair.
pub fn sqr_add(z: Cpx, c: Cpx) -> (r: Cpx)
    requires
        z.bounded(ITER_LIMIT as int),
        c.bounded(SEED_LIMIT as int),
    ensures
        r.re == sqr_add_re(z, c),
        r.im == sqr_add_im(z, c),
{
    proof {
        lemma_sqr_add_mag(z, c);
    }
    let rr: i128 = wide_mul(z.re, z.re);
    let ii: i128 = wide_mul(z.im, z.im);
    let ri: i128 = wide_mul(z.re, z.im);
    proof {
        assert(0 <= rr < 0x2000000000000000000 && 0 <= ii < 0x2000000000000000000
            && -0x2000000000000000000 < ri < 0x2000000000000000000) by (nonlinear_arith)
            requires
                rr == (z.re as int) * (z.re as int),
                ii == (z.im as int) * (z.im as int),
                ri == (z.re as int) * (z.im as int),
                -69809995776 <= z.re <= 69809995776,
                -69809995776 <= z.im <= 69809995776,
        ;
    }
    let qre: i128 = div_trunc_i128(rr - ii, FIX_ONE as i128);
    proof {
        assert(2 * ri == 2 * (z.re as int) * (z.im as int)) by (nonlinear_arith)
            requires
                ri == (z.re as int) * (z.im as int),
        ;
    }
    let qim: i128 = div_trunc_i128(2 * ri, FIX_ONE as i128);
    Cpx { re: (qre as i64) + c.re, im: (qim as i64) + c.im }
}

} // verus!
