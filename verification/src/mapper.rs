//! The affine mapping between pixel coordinates and the complex plane.
//!
//! Forward: pixel `(x, y)` maps to
//! `center + ((x - width/2) * scale, (y - height/2) * scale)`, the half-pixel
//! division rounding toward positive infinity.  Inverse: a plane value maps
//! back to a pixel by reversing the transform and flooring; results outside
//! the frame are discarded, never clamped.  The rounding directions are
//! chosen so that the round trip recovers the generating pixel exactly
//! (`lemma_round_trip`).

use vstd::prelude::*;
use vstd::arithmetic::div_mod::{
    lemma_fundamental_div_mod,
    lemma_fundamental_div_mod_converse,
    lemma_div_is_ordered,
    lemma_div_pos_is_pos,
};
use crate::complex::Cpx;
use crate::fixed::{SEED_LIMIT, ITER_LIMIT, div_floor_i64};

verus! {

/// Largest frame dimension, in pixels.
pub const MAX_DIM: usize = 1048576;

/// A viewport frame: plane center, plane units per pixel, pixel dimensions.
#[derive(Clone, Copy, PartialEq, Eq, Structural, Debug)]
pub struct Frame {
    pub center: Cpx,
    /// Plane units per pixel, in raw counts; at least one raw count.
    pub scale: i64,
    pub width: usize,
    pub height: usize,
}

impl Frame {
    /// The frame spans a representable part of the plane.
    pub open spec fn wf(self) -> bool {
        &&& 1 <= self.width <= MAX_DIM
        &&& 1 <= self.height <= MAX_DIM
        &&& self.width * self.height <= usize::MAX
        &&& 1 <= self.scale
        &&& self.center.re - self.width * self.scale >= -SEED_LIMIT
        &&& self.center.re + self.width * self.scale <= SEED_LIMIT
        &&& self.center.im - self.height * self.scale >= -SEED_LIMIT
        &&& self.center.im + self.height * self.scale <= SEED_LIMIT
    }

    /// Real part of the plane value of pixel column `x`.
    pub open spec fn fwd_re(self, x: int) -> int {
        ((2 * x - self.width) * self.scale + 1) / 2 + self.center.re
    }

    /// Imaginary part of the plane value of pixel row `y`.
    pub open spec fn fwd_im(self, y: int) -> int {
        ((2 * y - self.height) * self.scale + 1) / 2 + self.center.im
    }

    /// The pixel column a plane value projects to (may fall outside the frame).
    pub open spec fn inv_x(self, z: Cpx) -> int {
        (2 * (z.re - self.center.re) + self.width * self.scale) / (2 * self.scale)
    }

    /// The pixel row a plane value projects to (may fall outside the frame).
    pub open spec fn inv_y(self, z: Cpx) -> int {
        (2 * (z.im - self.center.im) + self.height * self.scale) / (2 * self.scale)
    }

    /// The plane value `z` projects into the frame.
    pub open spec fn in_frame(self, z: Cpx) -> bool {
        &&& 0 <= self.inv_x(z) < self.width
        &&& 0 <= self.inv_y(z) < self.height
    }
}

/// Magnitude bound for the rounded half-pixel product.
proof fn lemma_half_bound(n: int, bound: int)
    requires
        0 <= bound,
        -bound <= n <= bound,
    ensures
        -bound <= (n + 1) / 2 <= bound,
{
    lemma_fundamental_div_mod(n + 1, 2);
}

/// The plane value of pixel `(x, y)`: exactly the forward mapping.
pub fn forward(frame: &Frame, x: usize, y: usize) -> (r: Cpx)
    requires
        frame.wf(),
        x < frame.width,
        y < frame.height,
    ensures
        r.re == frame.fwd_re(x as int),
        r.im == frame.fwd_im(y as int),
        r.bounded(SEED_LIMIT as int),
{
    let w: i64 = frame.width as i64;
    let h: i64 = frame.height as i64;
    let s: i64 = frame.scale;
    proof {
        assert(w * s <= SEED_LIMIT + SEED_LIMIT && h * s <= SEED_LIMIT + SEED_LIMIT)
            by (nonlinear_arith)
            requires
                w >= 1,
                h >= 1,
                s >= 1,
                frame.center.re + w * s <= SEED_LIMIT,
                frame.center.re - w * s >= -SEED_LIMIT,
                frame.center.im + h * s <= SEED_LIMIT,
                frame.center.im - h * s >= -SEED_LIMIT,
        ;
        assert(-(w * s) <= (2 * (x as int) - w) * s <= w * s) by (nonlinear_arith)
            requires
                0 <= x < w,
                s >= 1,
        ;
        assert(-(h * s) <= (2 * (y as int) - h) * s <= h * s) by (nonlinear_arith)
            requires
                0 <= y < h,
                s >= 1,
        ;
        lemma_half_bound((2 * (x as int) - w) * s, w * s);
        lemma_half_bound((2 * (y as int) - h) * s, h * s);
    }
    let ox: i64 = 2 * (x as i64) - w;
    let oy: i64 = 2 * (y as i64) - h;
    let px: i64 = div_floor_i64(ox * s + 1, 2);
    let py: i64 = div_floor_i64(oy * s + 1, 2);
    Cpx { re: px + frame.center.re, im: py + frame.center.im }
}

/// The pixel a plane value projects to, or `None` when it falls outside the
/// frame: exactly the floored inverse mapping.
pub fn inverse(frame: &Frame, z: Cpx) -> (r: Option<(usize, usize)>)
    requires
        frame.wf(),
        z.bounded(ITER_LIMIT as int),
    ensures
        r == if frame.in_frame(z) {
            Some((frame.inv_x(z) as usize, frame.inv_y(z) as usize))
        } else {
            None::<(usize, usize)>
        },
{
    let w: i64 = frame.width as i64;
    let h: i64 = frame.height as i64;
    let s: i64 = frame.scale;
    proof {
        assert(1 <= w * s <= SEED_LIMIT + SEED_LIMIT && 1 <= h * s <= SEED_LIMIT + SEED_LIMIT
            && s <= SEED_LIMIT + SEED_LIMIT) by (nonlinear_arith)
            requires
                w >= 1,
                h >= 1,
                s >= 1,
                frame.center.re + w * s <= SEED_LIMIT,
                frame.center.re - w * s >= -SEED_LIMIT,
                frame.center.im + h * s <= SEED_LIMIT,
                frame.center.im - h * s >= -SEED_LIMIT,
        ;
    }
    let qx: i64 = div_floor_i64(2 * (z.re - frame.center.re) + w * s, 2 * s);
    let qy: i64 = div_floor_i64(2 * (z.im - frame.center.im) + h * s, 2 * s);
    if 0 <= qx && qx < w && 0 <= qy && qy < h {
        Some((qx as usize, qy as usize))
    } else {
        None
    }
}

/// Mapping round trip: the inverse projection of the plane value generated
/// for pixel `(x, y)` is exactly `(x, y)`.
pub proof fn lemma_round_trip(frame: Frame, x: int, y: int)
    requires
        frame.wf(),
        0 <= x < frame.width,
        0 <= y < frame.height,
    ensures
        frame.inv_x(Cpx { re: frame.fwd_re(x) as i64, im: frame.fwd_im(y) as i64 }) == x,
        frame.inv_y(Cpx { re: frame.fwd_re(x) as i64, im: frame.fwd_im(y) as i64 }) == y,
        frame.in_frame(Cpx { re: frame.fwd_re(x) as i64, im: frame.fwd_im(y) as i64 }),
{
    let w = frame.width as int;
    let h = frame.height as int;
    let s = frame.scale as int;
    assert(w * s <= SEED_LIMIT + SEED_LIMIT && h * s <= SEED_LIMIT + SEED_LIMIT
        && s <= SEED_LIMIT + SEED_LIMIT) by (nonlinear_arith)
        requires
            w >= 1,
            h >= 1,
            s >= 1,
            frame.center.re + w * s <= SEED_LIMIT,
            frame.center.re - w * s >= -SEED_LIMIT,
            frame.center.im + h * s <= SEED_LIMIT,
            frame.center.im - h * s >= -SEED_LIMIT,
    ;
    assert(-(w * s) <= (2 * x - w) * s <= w * s) by (nonlinear_arith)
        requires
            0 <= x < w,
            s >= 1,
    ;
    assert(-(h * s) <= (2 * y - h) * s <= h * s) by (nonlinear_arith)
        requires
            0 <= y < h,
            s >= 1,
    ;
    let n0 = (2 * x - w) * s;
    let m0 = (2 * y - h) * s;
    lemma_half_bound(n0, w * s);
    lemma_half_bound(m0, h * s);
    let px = (n0 + 1) / 2;
    let py = (m0 + 1) / 2;
    lemma_fundamental_div_mod(n0 + 1, 2);
    lemma_fundamental_div_mod(m0 + 1, 2);
    assert(2 * px == n0 + (1 - ((n0 + 1) % 2)));
    let cbx = 1 - ((n0 + 1) % 2);
    let cby = 1 - ((m0 + 1) % 2);
    assert(0 <= cbx <= 1 && 0 <= cby <= 1);
    assert(2 * px + w * s == x * (2 * s) + cbx) by (nonlinear_arith)
        requires
            2 * px == (2 * x - w) * s + cbx,
    ;
    assert(2 * py + h * s == y * (2 * s) + cby) by (nonlinear_arith)
        requires
            2 * py == (2 * y - h) * s + cby,
    ;
    lemma_fundamental_div_mod_converse(2 * px + w * s, 2 * s, x, cbx);
    lemma_fundamental_div_mod_converse(2 * py + h * s, 2 * s, y, cby);
    let zz = Cpx { re: frame.fwd_re(x) as i64, im: frame.fwd_im(y) as i64 };
    assert(zz.re == px + frame.center.re && zz.im == py + frame.center.im);
    assert(2 * (zz.re - frame.center.re) + w * s == 2 * px + w * s);
}

} // verus!
