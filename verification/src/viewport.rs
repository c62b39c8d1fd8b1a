//! The interactive viewport: center, scale and tick, with the navigation
//! commands that re-seed the field.
//!
//! Every command that changes the geometry resets the tick to zero; the
//! controller re-seeds the field at the same call site, so a stale field can
//! never be iterated.  A command whose target would leave the representable
//! part of the plane is rejected whole: the state is unchanged.

use vstd::prelude::*;
use vstd::arithmetic::div_mod::{
    lemma_fundamental_div_mod,
    lemma_fundamental_div_mod_converse,
    lemma_div_pos_is_pos,
    lemma_div_nonincreasing,
    lemma_div_is_ordered,
    lemma_div_by_multiple,
};
use crate::complex::Cpx;
use crate::fixed::SEED_LIMIT;
use crate::mapper::{Frame, forward};
use crate::engine::{Field, seed_field, seeded_samples, step_field_escape};
use crate::sample::step_spec;
use crate::fixed::THRESHOLD_LIMIT;

verus! {

/// The viewport state: the current frame, the steps elapsed since the last
/// re-seed, and the initial geometry that `reset` restores.
pub struct Viewport {
    pub frame: Frame,
    pub tick: u32,
    pub init_center: Cpx,
    pub init_scale: i64,
}

impl Viewport {
    /// The frame that `reset` restores.
    pub open spec fn reset_frame(self) -> Frame {
        Frame {
            center: self.init_center,
            scale: self.init_scale,
            width: self.frame.width,
            height: self.frame.height,
        }
    }

    /// Current and reset geometry both span representable plane.
    pub open spec fn wf(self) -> bool {
        &&& self.frame.wf()
        &&& self.reset_frame().wf()
    }

    pub fn new(frame: Frame) -> (r: Viewport)
        requires
            frame.wf(),
        ensures
            r.wf(),
            r.frame == frame,
            r.tick == 0,
            r.init_center == frame.center,
            r.init_scale == frame.scale,
    {
        Viewport { frame, tick: 0, init_center: frame.center, init_scale: frame.scale }
    }
}

/// The scale after a zoom by `num / den`, truncating, floored at one raw
/// count per pixel.
pub open spec fn zoom_spec(s: int, num: int, den: int) -> int
    recommends
        s >= 1,
        num >= 1,
        den >= 1,
{
    if (s * num) / den < 1 {
        1
    } else {
        (s * num) / den
    }
}

/// Zooming out by five fourths recovers, within one raw count, the scale a
/// zoom in by four fifths started from.
pub proof fn lemma_zoom_round_trip(s: int)
    requires
        s >= 1,
    ensures
        s - 1 <= zoom_spec(zoom_spec(s, 4, 5), 5, 4) <= s,
{
    if s <= 4 {
        assert(s == 1 || s == 2 || s == 3 || s == 4);
        assert(zoom_spec(zoom_spec(1, 4, 5), 5, 4) == 1);
        assert(zoom_spec(zoom_spec(2, 4, 5), 5, 4) == 1);
        assert(zoom_spec(zoom_spec(3, 4, 5), 5, 4) == 2);
        assert(zoom_spec(zoom_spec(4, 4, 5), 5, 4) == 3);
    } else {
        lemma_fundamental_div_mod(4 * s, 5);
        let q1 = (4 * s) / 5;
        let r1 = (4 * s) % 5;
        lemma_div_pos_is_pos(4 * s, 5);
        assert(4 * s >= 4 * 5) by (nonlinear_arith)
            requires
                s >= 5,
        ;
        assert(q1 >= 4) by {
            if q1 <= 3 {
                assert(4 * s == 5 * q1 + r1);
            }
        }
        assert(zoom_spec(s, 4, 5) == q1);
        lemma_fundamental_div_mod(5 * q1, 4);
        assert(5 * q1 == 5 * ((4 * s) / 5));
        assert(5 * q1 == 4 * s - r1);
        if r1 == 0 {
            lemma_fundamental_div_mod_converse(4 * s, 4, s, 0);
            assert(4 * s == s * 4 + 0) by (nonlinear_arith);
            assert((5 * q1) / 4 == s);
        } else {
            assert(4 * s - r1 == (s - 1) * 4 + (4 - r1)) by (nonlinear_arith);
            lemma_fundamental_div_mod_converse(4 * s - r1, 4, s - 1, 4 - r1);
            assert((5 * q1) / 4 == s - 1);
        }
        assert(zoom_spec(q1, 5, 4) == (5 * q1) / 4);
    }
}

/// A candidate geometry spans representable plane: `Frame::wf` stated over
/// unbounded integers, so that a command's target can be judged before it is
/// narrowed to machine words.
pub open spec fn fits(center_re: int, center_im: int, scale: int, width: usize, height: usize) -> bool {
    &&& 1 <= width <= crate::mapper::MAX_DIM
    &&& 1 <= height <= crate::mapper::MAX_DIM
    &&& width * height <= usize::MAX
    &&& 1 <= scale
    &&& center_re - width * scale >= -(SEED_LIMIT as int)
    &&& center_re + width * scale <= SEED_LIMIT as int
    &&& center_im - height * scale >= -(SEED_LIMIT as int)
    &&& center_im + height * scale <= SEED_LIMIT as int
}

/// A representable target lies strictly inside the checked machine ranges.
proof fn lemma_fits_ranges(re: int, im: int, s: int, w: usize, h: usize)
    requires
        fits(re, im, s, w, h),
    ensures
        -(SEED_LIMIT as int) < re < SEED_LIMIT as int,
        -(SEED_LIMIT as int) < im < SEED_LIMIT as int,
        1 <= s <= SEED_LIMIT as int,
{
    assert(1 <= (w as int) * s && s <= (w as int) * s && 1 <= (h as int) * s) by (nonlinear_arith)
        requires
            1 <= w,
            1 <= h,
            1 <= s,
    ;
}

/// The frame a pan by `(dx, dy)` pixels aims at.
pub open spec fn panned_frame(f: Frame, dx: int, dy: int) -> Frame {
    Frame {
        center: Cpx { re: (f.center.re + dx * f.scale) as i64, im: (f.center.im + dy * f.scale) as i64 },
        scale: f.scale,
        width: f.width,
        height: f.height,
    }
}

/// A pan by `(dx, dy)` pixels applies exactly when its target is representable.
pub open spec fn pan_applies(f: Frame, dx: int, dy: int) -> bool {
    fits(f.center.re + dx * f.scale, f.center.im + dy * f.scale, f.scale as int, f.width, f.height)
}

/// The frame a zoom by `num / den` aims at.
pub open spec fn zoomed_frame(f: Frame, num: int, den: int) -> Frame {
    Frame {
        center: f.center,
        scale: zoom_spec(f.scale as int, num, den) as i64,
        width: f.width,
        height: f.height,
    }
}

/// A zoom by `num / den` applies exactly when its target is representable.
pub open spec fn zoom_applies(f: Frame, num: int, den: int) -> bool {
    fits(f.center.re as int, f.center.im as int, zoom_spec(f.scale as int, num, den), f.width, f.height)
}

/// Zooming in never leaves the representable plane: from a well-formed
/// frame, a zoom whose factor is at most one always applies.
pub proof fn lemma_zoom_in_applies(f: Frame, num: int, den: int)
    requires
        f.wf(),
        1 <= num <= den,
    ensures
        zoom_applies(f, num, den),
{
    let s = f.scale as int;
    let q = (s * num) / den;
    let s2 = zoom_spec(s, num, den);
    assert(s * num <= s * den) by (nonlinear_arith)
        requires
            1 <= num <= den,
            s >= 1,
    ;
    lemma_div_is_ordered(s * num, s * den, den);
    lemma_div_by_multiple(s, den);
    assert(q <= s);
    assert(1 <= s2 <= s);
    assert((f.width as int) * s2 <= (f.width as int) * s && (f.height as int) * s2 <= (
    f.height as int) * s && 0 <= (f.width as int) * s2 && 0 <= (f.height as int) * s2)
        by (nonlinear_arith)
        requires
            1 <= s2 <= s,
            f.width >= 1,
            f.height >= 1,
    ;
}

/// The frame a recenter at pixel `(x, y)` aims at.
pub open spec fn recentered_frame(f: Frame, x: int, y: int) -> Frame {
    Frame {
        center: Cpx { re: f.fwd_re(x) as i64, im: f.fwd_im(y) as i64 },
        scale: f.scale,
        width: f.width,
        height: f.height,
    }
}

/// A recenter at pixel `(x, y)` applies exactly when its target is representable.
pub open spec fn recenter_applies(f: Frame, x: int, y: int) -> bool {
    fits(f.fwd_re(x), f.fwd_im(y), f.scale as int, f.width, f.height)
}

/// Whether a frame spans representable plane: exactly `Frame::wf`.
fn frame_fits(frame: &Frame) -> (r: bool)
    ensures
        r == frame.wf(),
{
    if frame.width < 1 || frame.width > crate::mapper::MAX_DIM || frame.height < 1 || frame.height
        > crate::mapper::MAX_DIM || frame.scale < 1 {
        return false;
    }
    proof {
        assert((frame.width as int) * (frame.height as int) <= 0x10000000000) by (nonlinear_arith)
            requires
                frame.width <= 0x100000,
                frame.height <= 0x100000,
        ;
    }
    let wh: u64 = (frame.width as u64) * (frame.height as u64);
    if wh > usize::MAX as u64 {
        return false;
    }
    let w: i128 = frame.width as i128;
    let h: i128 = frame.height as i128;
    let s: i128 = frame.scale as i128;
    proof {
        assert(0 <= w * s <= 0x800000000000000000000 && 0 <= h * s <= 0x800000000000000000000)
            by (nonlinear_arith)
            requires
                1 <= w <= 0x100000,
                1 <= h <= 0x100000,
                1 <= s <= 0x8000000000000000,
        ;
    }
    let ws: i128 = w * s;
    let hs: i128 = h * s;
    let lim: i128 = SEED_LIMIT as i128;
    (frame.center.re as i128) - ws >= -lim && (frame.center.re as i128) + ws <= lim && (
    frame.center.im as i128) - hs >= -lim && (frame.center.im as i128) + hs <= lim
}

/// A navigation input, as the host's event pump reports it.
#[derive(Clone, Copy, PartialEq, Eq, Structural, Debug)]
pub enum InputEvent {
    /// Pointer pressed at a pixel: recenter there.
    PointerPress { x: usize, y: usize },
    /// Full reset to the initial center and scale.
    KeyReset,
    /// Scale by four fifths.
    KeyZoomIn,
    /// Scale by six fifths.
    KeyZoomOut,
    KeyPanLeft,
    KeyPanRight,
    KeyPanUp,
    KeyPanDown,
}

/// The interactive session: the viewport and the field seeded from it.
pub struct Controller {
    pub vp: Viewport,
    pub field: Field,
}

/// What one navigation command leaves behind: when `ok`, the target frame is
/// installed, the tick is reset and the field is re-seeded from the target,
/// with the initial geometry kept for `reset`; when not, nothing changes.
pub open spec fn command_outcome(pre: Controller, post: Controller, target: Frame, ok: bool) -> bool {
    if ok {
        &&& post.vp.frame == target
        &&& post.vp.tick == 0
        &&& post.vp.init_center == pre.vp.init_center
        &&& post.vp.init_scale == pre.vp.init_scale
        &&& post.field.samples@ == seeded_samples(target)
    } else {
        post == pre
    }
}

impl Controller {
    pub open spec fn wf(self) -> bool {
        &&& self.vp.wf()
        &&& self.field.wf()
        &&& self.field.frame == self.vp.frame
    }

    /// A fresh session: the field seeded from the frame, tick at zero.
    pub fn new(frame: Frame) -> (r: Controller)
        requires
            frame.wf(),
        ensures
            r.wf(),
            r.vp.frame == frame,
            r.vp.tick == 0,
            r.field.samples@ == seeded_samples(frame),
    {
        let vp = Viewport::new(frame);
        let field = seed_field(&frame);
        Controller { vp, field }
    }

    /// Install `target` as the new frame if it is representable, re-seeding
    /// the field and resetting the tick; otherwise change nothing.
    fn commit(&mut self, target_re: i128, target_im: i128, target_scale: i128) -> (applied: bool)
        requires
            old(self).wf(),
        ensures
            final(self).wf(),
            final(self).vp.init_center == old(self).vp.init_center,
            final(self).vp.init_scale == old(self).vp.init_scale,
            final(self).vp.frame.width == old(self).vp.frame.width,
            final(self).vp.frame.height == old(self).vp.frame.height,
            applied <==> fits(
                target_re as int,
                target_im as int,
                target_scale as int,
                old(self).vp.frame.width,
                old(self).vp.frame.height,
            ),
            applied ==> {
                &&& final(self).vp.frame == (Frame {
                    center: Cpx { re: target_re as i64, im: target_im as i64 },
                    scale: target_scale as i64,
                    width: old(self).vp.frame.width,
                    height: old(self).vp.frame.height,
                })
                &&& final(self).vp.tick == 0
                &&& final(self).field.samples@ == seeded_samples(final(self).vp.frame)
            },
            !applied ==> *final(self) == *old(self),
    {
        let w: i128 = self.vp.frame.width as i128;
        let h: i128 = self.vp.frame.height as i128;
        let lim: i128 = SEED_LIMIT as i128;
        if target_scale < 1 || target_scale > 2 * lim || target_re < -lim || target_re > lim
            || target_im < -lim || target_im > lim {
            proof {
                if fits(
                    target_re as int,
                    target_im as int,
                    target_scale as int,
                    self.vp.frame.width,
                    self.vp.frame.height,
                ) {
                    lemma_fits_ranges(
                        target_re as int,
                        target_im as int,
                        target_scale as int,
                        self.vp.frame.width,
                        self.vp.frame.height,
                    );
                }
            }
            return false;
        }
        proof {
            assert(0 <= w * target_scale <= 0x400000000000000
                && 0 <= h * target_scale <= 0x400000000000000) by (nonlinear_arith)
                requires
                    1 <= w <= 0x100000,
                    1 <= h <= 0x100000,
                    1 <= target_scale <= 0x80000000,
            ;
        }
        let ws: i128 = w * target_scale;
        let hs: i128 = h * target_scale;
        let ok: bool = target_re - ws >= -lim && target_re + ws <= lim && target_im - hs >= -lim
            && target_im + hs <= lim;
        proof {
            assert(ok == fits(
                target_re as int,
                target_im as int,
                target_scale as int,
                self.vp.frame.width,
                self.vp.frame.height,
            ));
        }
        if ok {
            let frame = Frame {
                center: Cpx { re: target_re as i64, im: target_im as i64 },
                scale: target_scale as i64,
                width: self.vp.frame.width,
                height: self.vp.frame.height,
            };
            self.vp.frame = frame;
            self.vp.tick = 0;
            self.field = seed_field(&frame);
            true
        } else {
            false
        }
    }

    /// Shift the center by whole pixels; reject a target outside the
    /// representable plane.
    pub fn pan(&mut self, dx: i64, dy: i64) -> (applied: bool)
        requires
            old(self).wf(),
        ensures
            final(self).wf(),
            applied <==> pan_applies(old(self).vp.frame, dx as int, dy as int),
            command_outcome(
                *old(self),
                *final(self),
                panned_frame(old(self).vp.frame, dx as int, dy as int),
                applied,
            ),
            final(self).vp.frame.width == old(self).vp.frame.width,
            final(self).vp.frame.height == old(self).vp.frame.height,
            final(self).vp.init_center == old(self).vp.init_center,
            final(self).vp.init_scale == old(self).vp.init_scale,
    {
        let s: i128 = self.vp.frame.scale as i128;
        proof {
            assert(-0x40000000000000000000000000000000 <= (dx as int) * s
                && (dx as int) * s <= 0x40000000000000000000000000000000
                && -0x40000000000000000000000000000000 <= (dy as int) * s
                && (dy as int) * s <= 0x40000000000000000000000000000000) by (nonlinear_arith)
                requires
                    -0x8000000000000000 <= dx <= 0x7fffffffffffffff,
                    -0x8000000000000000 <= dy <= 0x7fffffffffffffff,
                    0 <= s <= 0x8000000000000000,
            ;
        }
        let nre: i128 = (self.vp.frame.center.re as i128) + (dx as i128) * s;
        let nim: i128 = (self.vp.frame.center.im as i128) + (dy as i128) * s;
        self.commit(nre, nim, s)
    }

    /// Multiply the scale by `num / den`, truncating and floored at one raw
    /// count; reject a target outside the representable plane.
    pub fn zoom(&mut self, num: u32, den: u32) -> (applied: bool)
        requires
            old(self).wf(),
            1 <= num,
            1 <= den,
        ensures
            final(self).wf(),
            applied <==> zoom_applies(old(self).vp.frame, num as int, den as int),
            command_outcome(
                *old(self),
                *final(self),
                zoomed_frame(old(self).vp.frame, num as int, den as int),
                applied,
            ),
            final(self).vp.frame.width == old(self).vp.frame.width,
            final(self).vp.frame.height == old(self).vp.frame.height,
            final(self).vp.init_center == old(self).vp.init_center,
            final(self).vp.init_scale == old(self).vp.init_scale,
    {
        let s: i128 = self.vp.frame.scale as i128;
        proof {
            assert(0 <= (s as int) * (num as int) <= 0x40000000000000000000000000000000)
                by (nonlinear_arith)
                requires
                    1 <= s <= 0x8000000000000000,
                    1 <= num <= 0x100000000,
            ;
            lemma_div_pos_is_pos(s as int * num as int, den as int);
            lemma_div_nonincreasing(s as int * num as int, den as int);
        }
        let q: i128 = (s * (num as i128)) / (den as i128);
        let ns: i128 = if q < 1 {
            1
        } else {
            q
        };
        proof {
            assert(ns as int == zoom_spec(self.vp.frame.scale as int, num as int, den as int));
        }
        let cre: i128 = self.vp.frame.center.re as i128;
        let cim: i128 = self.vp.frame.center.im as i128;
        self.commit(cre, cim, ns)
    }

    /// Re-derive the sample grid for new pixel dimensions, keeping center
    /// and scale; reject dimensions under which the current or the initial
    /// geometry would leave the representable plane.
    pub fn resize(&mut self, width: usize, height: usize) -> (applied: bool)
        requires
            old(self).wf(),
        ensures
            final(self).wf(),
            applied ==> {
                &&& final(self).vp.frame == (Frame {
                    center: old(self).vp.frame.center,
                    scale: old(self).vp.frame.scale,
                    width,
                    height,
                })
                &&& final(self).vp.init_center == old(self).vp.init_center
                &&& final(self).vp.init_scale == old(self).vp.init_scale
                &&& final(self).vp.tick == 0
                &&& final(self).field.samples@ == seeded_samples(final(self).vp.frame)
            },
            !applied ==> *final(self) == *old(self),
            applied <==> {
                &&& (Frame {
                    center: old(self).vp.frame.center,
                    scale: old(self).vp.frame.scale,
                    width,
                    height,
                }).wf()
                &&& (Frame {
                    center: old(self).vp.init_center,
                    scale: old(self).vp.init_scale,
                    width,
                    height,
                }).wf()
            },
    {
        let target = Frame {
            center: self.vp.frame.center,
            scale: self.vp.frame.scale,
            width,
            height,
        };
        let target_init = Frame {
            center: self.vp.init_center,
            scale: self.vp.init_scale,
            width,
            height,
        };
        if frame_fits(&target) && frame_fits(&target_init) {
            self.vp.frame = target;
            self.vp.tick = 0;
            self.field = seed_field(&target);
            true
        } else {
            false
        }
    }

    /// Restore the initial center and scale; always representable.
    pub fn reset(&mut self)
        requires
            old(self).wf(),
        ensures
            final(self).wf(),
            command_outcome(*old(self), *final(self), old(self).vp.reset_frame(), true),
            final(self).vp.frame == old(self).vp.reset_frame(),
            final(self).vp.tick == 0,
            final(self).field.samples@ == seeded_samples(final(self).vp.frame),
            final(self).vp.frame.width == old(self).vp.frame.width,
            final(self).vp.frame.height == old(self).vp.frame.height,
            final(self).vp.init_center == old(self).vp.init_center,
            final(self).vp.init_scale == old(self).vp.init_scale,
    {
        let frame = Frame {
            center: self.vp.init_center,
            scale: self.vp.init_scale,
            width: self.vp.frame.width,
            height: self.vp.frame.height,
        };
        self.vp.frame = frame;
        self.vp.tick = 0;
        self.field = seed_field(&frame);
    }

    /// Recenter at the plane value of the pressed pixel; reject a target
    /// outside the representable plane.
    pub fn recenter(&mut self, x: usize, y: usize) -> (applied: bool)
        requires
            old(self).wf(),
            x < old(self).vp.frame.width,
            y < old(self).vp.frame.height,
        ensures
            final(self).wf(),
            applied <==> recenter_applies(old(self).vp.frame, x as int, y as int),
            command_outcome(
                *old(self),
                *final(self),
                recentered_frame(old(self).vp.frame, x as int, y as int),
                applied,
            ),
            final(self).vp.frame.width == old(self).vp.frame.width,
            final(self).vp.frame.height == old(self).vp.frame.height,
            final(self).vp.init_center == old(self).vp.init_center,
            final(self).vp.init_scale == old(self).vp.init_scale,
    {
        let c: Cpx = forward(&self.vp.frame, x, y);
        self.commit(c.re as i128, c.im as i128, self.vp.frame.scale as i128)
    }

    /// Apply one navigation input: pointer press recenters at the pressed
    /// pixel, the zoom keys scale by four fifths and six fifths, the pan keys
    /// shift by a tenth of the frame in their axis, and reset restores the
    /// initial geometry.  Every applied command resets the tick and re-seeds
    /// the field; a command whose target is not representable, or a press
    /// outside the frame, changes nothing.
    pub fn handle_event(&mut self, ev: InputEvent)
        requires
            old(self).wf(),
        ensures
            final(self).wf(),
            final(self).vp.frame.width == old(self).vp.frame.width,
            final(self).vp.frame.height == old(self).vp.frame.height,
            final(self).vp.init_center == old(self).vp.init_center,
            final(self).vp.init_scale == old(self).vp.init_scale,
            ev == InputEvent::KeyReset ==> command_outcome(
                *old(self),
                *final(self),
                old(self).vp.reset_frame(),
                true,
            ),
            ev == InputEvent::KeyZoomIn ==> command_outcome(
                *old(self),
                *final(self),
                zoomed_frame(old(self).vp.frame, 4, 5),
                zoom_applies(old(self).vp.frame, 4, 5),
            ),
            ev == InputEvent::KeyZoomOut ==> command_outcome(
                *old(self),
                *final(self),
                zoomed_frame(old(self).vp.frame, 6, 5),
                zoom_applies(old(self).vp.frame, 6, 5),
            ),
            ev == InputEvent::KeyPanLeft ==> command_outcome(
                *old(self),
                *final(self),
                panned_frame(old(self).vp.frame, -((old(self).vp.frame.width / 10) as int), 0),
                pan_applies(old(self).vp.frame, -((old(self).vp.frame.width / 10) as int), 0),
            ),
            ev == InputEvent::KeyPanRight ==> command_outcome(
                *old(self),
                *final(self),
                panned_frame(old(self).vp.frame, (old(self).vp.frame.width / 10) as int, 0),
                pan_applies(old(self).vp.frame, (old(self).vp.frame.width / 10) as int, 0),
            ),
            ev == InputEvent::KeyPanUp ==> command_outcome(
                *old(self),
                *final(self),
                panned_frame(old(self).vp.frame, 0, -((old(self).vp.frame.height / 10) as int)),
                pan_applies(old(self).vp.frame, 0, -((old(self).vp.frame.height / 10) as int)),
            ),
            ev == InputEvent::KeyPanDown ==> command_outcome(
                *old(self),
                *final(self),
                panned_frame(old(self).vp.frame, 0, (old(self).vp.frame.height / 10) as int),
                pan_applies(old(self).vp.frame, 0, (old(self).vp.frame.height / 10) as int),
            ),
            ev matches InputEvent::PointerPress { x, y } ==> if x < old(self).vp.frame.width && y
                < old(self).vp.frame.height {
                command_outcome(
                    *old(self),
                    *final(self),
                    recentered_frame(old(self).vp.frame, x as int, y as int),
                    recenter_applies(old(self).vp.frame, x as int, y as int),
                )
            } else {
                *final(self) == *old(self)
            },
    {
        match ev {
            InputEvent::PointerPress { x, y } => {
                if x < self.vp.frame.width && y < self.vp.frame.height {
                    let _applied = self.recenter(x, y);
                }
            },
            InputEvent::KeyReset => {
                self.reset();
            },
            InputEvent::KeyZoomIn => {
                let _applied = self.zoom(4, 5);
            },
            InputEvent::KeyZoomOut => {
                let _applied = self.zoom(6, 5);
            },
            InputEvent::KeyPanLeft => {
                let step: usize = self.vp.frame.width / 10;
                let _applied = self.pan(-(step as i64), 0);
            },
            InputEvent::KeyPanRight => {
                let step: usize = self.vp.frame.width / 10;
                let _applied = self.pan(step as i64, 0);
            },
            InputEvent::KeyPanUp => {
                let step: usize = self.vp.frame.height / 10;
                let _applied = self.pan(0, -(step as i64));
            },
            InputEvent::KeyPanDown => {
                let step: usize = self.vp.frame.height / 10;
                let _applied = self.pan(0, step as i64);
            },
        }
    }

    /// `step_frame` behind a buffer validation: the host's pixel buffer must
    /// hold exactly three bytes per sample of the declared grid, and the tick
    /// must have room to count.  A buffer of the wrong size, or an exhausted
    /// tick, changes nothing and reports `false`.
    pub fn try_step_frame(&mut self, pixels: &mut Vec<u8>, t: i64) -> (stepped: bool)
        requires
            old(self).wf(),
            0 <= t <= THRESHOLD_LIMIT,
        ensures
            final(self).wf(),
            stepped <==> old(pixels)@.len() == 3 * old(self).field.samples@.len() && old(
                self,
            ).vp.tick < u32::MAX,
            !stepped ==> *final(self) == *old(self) && final(pixels)@ == old(pixels)@,
            stepped ==> {
                &&& final(self).vp.frame == old(self).vp.frame
                &&& final(self).vp.tick == old(self).vp.tick + 1
                &&& final(self).field.samples@.len() == old(self).field.samples@.len()
                &&& forall|k: int|
                    0 <= k < old(self).field.samples@.len() ==> #[trigger] final(self).field.samples@[k]
                        == step_spec(
                        old(self).field.samples@[k],
                        t as int,
                        old(self).vp.tick,
                    )
                &&& final(pixels)@.len() == old(pixels)@.len()
                &&& forall|k: int|
                    0 <= k < old(self).field.samples@.len() && crate::engine::escapes_now(
                        old(self).field.samples@[k],
                        t as int,
                    ) ==> #[trigger] crate::engine::tinted(final(pixels)@, k, old(self).vp.tick)
                &&& forall|j: int|
                    0 <= j < final(pixels)@.len() && !crate::engine::escapes_now(
                        old(self).field.samples@[j / 3],
                        t as int,
                    ) ==> #[trigger] final(pixels)@[j] == old(pixels)@[j]
            },
    {
        let n: usize = self.field.samples.len();
        proof {
            assert(3 * (self.vp.frame.width as int) * (self.vp.frame.height as int)
                <= 0x30000000000) by (nonlinear_arith)
                requires
                    1 <= self.vp.frame.width <= 0x100000,
                    1 <= self.vp.frame.height <= 0x100000,
            ;
            assert(3 * (self.vp.frame.width as int) * (self.vp.frame.height as int) == 3 * ((
            self.vp.frame.width as int) * (self.vp.frame.height as int))) by (nonlinear_arith);
        }
        if (pixels.len() as u64) == 3 * (n as u64) && self.vp.tick < u32::MAX {
            self.step_frame(pixels, t);
            true
        } else {
            false
        }
    }

    /// One cooperative escape-time step over the whole field: advance every
    /// sample from its prior value, tint the pixels of the samples that stop
    /// at this tick, and count the tick.  Iteration never re-seeds.
    pub fn step_frame(&mut self, pixels: &mut Vec<u8>, t: i64)
        requires
            old(self).wf(),
            0 <= t <= THRESHOLD_LIMIT,
            old(pixels)@.len() == 3 * old(self).field.samples@.len(),
            old(self).vp.tick < u32::MAX,
        ensures
            final(self).wf(),
            final(self).vp.frame == old(self).vp.frame,
            final(self).vp.tick == old(self).vp.tick + 1,
            final(self).field.samples@.len() == old(self).field.samples@.len(),
            forall|k: int|
                0 <= k < old(self).field.samples@.len() ==> #[trigger] final(self).field.samples@[k]
                    == step_spec(
                    old(self).field.samples@[k],
                    t as int,
                    old(self).vp.tick,
                ),
            final(pixels)@.len() == old(pixels)@.len(),
            forall|k: int|
                0 <= k < old(self).field.samples@.len() && crate::engine::escapes_now(
                    old(self).field.samples@[k],
                    t as int,
                ) ==> #[trigger] crate::engine::tinted(final(pixels)@, k, old(self).vp.tick),
            forall|j: int|
                0 <= j < final(pixels)@.len() && !crate::engine::escapes_now(
                    old(self).field.samples@[j / 3],
                    t as int,
                ) ==> #[trigger] final(pixels)@[j] == old(pixels)@[j],
    {
        let tick: u32 = self.vp.tick;
        step_field_escape(&mut self.field, pixels, t, tick);
        self.vp.tick = tick + 1;
    }
}

} // verus!
