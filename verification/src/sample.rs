//! The per-point iteration record and its state machine.
//!
//! A sample is `Running` until the squared norm of its iterate exceeds the
//! escape threshold; the step that observes this stops it, recording the
//! seed (for a later density pass) and the step index (for escape-time
//! coloring).  `Stopped` is terminal: further steps are the identity.

use vstd::prelude::*;
use vstd::arithmetic::power2::pow2;
use crate::complex::{
    Cpx,
    norm_sqr_spec,
    sqr_add_re,
    sqr_add_im,
    sqr_add,
    norm_sqr_wide,
    lemma_sqr_add_mag,
    lemma_store_bounds,
};
use crate::fixed::{FIX_ONE, SEED_LIMIT, ITER_LIMIT, THRESHOLD_LIMIT};

verus! {

/// One point of the field.
#[derive(Clone, Copy, PartialEq, Eq, Structural, Debug)]
pub enum PlaneSample {
    /// Still iterating: the immutable seed and the current iterate.
    Running { c: Cpx, z: Cpx },
    /// Terminal: the seed and the step index at which iteration stopped.
    Stopped { c: Cpx, step: u32 },
}

impl PlaneSample {
    /// The seed the sample was created from.
    pub open spec fn seed(self) -> Cpx {
        match self {
            PlaneSample::Running { c, .. } => c,
            PlaneSample::Stopped { c, .. } => c,
        }
    }

    pub open spec fn is_running(self) -> bool {
        self matches PlaneSample::Running { .. }
    }

    /// The step index a stopped sample was stopped at.
    pub open spec fn stop_step(self) -> u32 {
        match self {
            PlaneSample::Running { .. } => 0,
            PlaneSample::Stopped { step, .. } => step,
        }
    }

    /// Seed within the seed range; a running iterate within the iterate range.
    pub open spec fn wf(self) -> bool {
        &&& self.seed().bounded(SEED_LIMIT as int)
        &&& match self {
            PlaneSample::Running { z, .. } => z.bounded(ITER_LIMIT as int),
            PlaneSample::Stopped { .. } => true,
        }
    }
}

/// A freshly seeded sample: iterate at the origin.
pub open spec fn fresh_spec(c: Cpx) -> PlaneSample {
    PlaneSample::Running { c, z: Cpx::zero_spec() }
}

/// The advanced iterate `z * z + c` of a running sample.
pub open spec fn next_iterate(c: Cpx, z: Cpx) -> Cpx {
    Cpx { re: sqr_add_re(z, c) as i64, im: sqr_add_im(z, c) as i64 }
}

/// One iteration step at threshold `t` (raw squared plane units) and step
/// index `idx`.  A running sample computes `z' = z * z + c`; if the squared
/// norm of `z'` exceeds the threshold the sample stops at this step,
/// otherwise it remains running at `z'`.  A stopped sample is unchanged.
pub open spec fn step_spec(s: PlaneSample, t: int, idx: u32) -> PlaneSample {
    match s {
        PlaneSample::Running { c, z } => {
            let zn = next_iterate(c, z);
            if norm_sqr_spec(zn) > t {
                PlaneSample::Stopped { c, step: idx }
            } else {
                PlaneSample::Running { c, z: zn }
            }
        },
        PlaneSample::Stopped { .. } => s,
    }
}

/// `n` iteration steps starting at step index `idx0`.
pub open spec fn run_spec(s: PlaneSample, t: int, n: nat, idx0: u32) -> PlaneSample
    decreases n,
{
    if n == 0 {
        s
    } else {
        run_spec(step_spec(s, t, idx0), t, (n - 1) as nat, (idx0 + 1) as u32)
    }
}

/// A step preserves well-formedness and the seed.
pub proof fn lemma_step_wf(s: PlaneSample, t: int, idx: u32)
    requires
        s.wf(),
        0 <= t <= THRESHOLD_LIMIT,
    ensures
        step_spec(s, t, idx).wf(),
        step_spec(s, t, idx).seed() == s.seed(),
{
    match s {
        PlaneSample::Running { c, z } => {
            lemma_sqr_add_mag(z, c);
            let zn = next_iterate(c, z);
            if norm_sqr_spec(zn) <= t {
                lemma_store_bounds(zn, t);
            }
        },
        PlaneSample::Stopped { .. } => {},
    }
}

/// Stopped is terminal: any run leaves a stopped sample unchanged.
pub proof fn lemma_stopped_frozen(s: PlaneSample, t: int, n: nat, idx0: u32)
    requires
        !s.is_running(),
    ensures
        run_spec(s, t, n, idx0) == s,
    decreases n,
{
    if n > 0 {
        lemma_stopped_frozen(s, t, (n - 1) as nat, (idx0 + 1) as u32);
    }
}

/// The origin is a fixed point: the sample seeded at `c = 0` keeps `z = 0`
/// through every step and is never stopped by escape, at any threshold and
/// any budget.
pub proof fn lemma_origin_never_escapes(t: int, n: nat, idx0: u32)
    requires
        t >= 0,
    ensures
        run_spec(fresh_spec(Cpx::zero_spec()), t, n, idx0) == fresh_spec(Cpx::zero_spec()),
    decreases n,
{
    let s = fresh_spec(Cpx::zero_spec());
    if n > 0 {
        assert(next_iterate(Cpx::zero_spec(), Cpx::zero_spec()) == Cpx::zero_spec());
        assert(norm_sqr_spec(Cpx::zero_spec()) == 0);
        assert(step_spec(s, t, idx0) == s);
        lemma_origin_never_escapes(t, (n - 1) as nat, (idx0 + 1) as u32);
    }
}

/// A seed whose own squared norm already exceeds the threshold stops at the
/// first step of any run: the first advance moves the iterate from the
/// origin to `c` exactly, and that advance is observed past the threshold.
pub proof fn lemma_far_seed_stops(c: Cpx, t: int, n: nat, idx0: u32)
    requires
        c.bounded(SEED_LIMIT as int),
        0 <= t <= THRESHOLD_LIMIT,
        norm_sqr_spec(c) > t,
        n >= 1,
    ensures
        run_spec(fresh_spec(c), t, n, idx0) == (PlaneSample::Stopped { c, step: idx0 }),
    decreases n,
{
    let s = fresh_spec(c);
    let z0 = Cpx::zero_spec();
    assert(sqr_add_re(z0, c) == c.re && sqr_add_im(z0, c) == c.im);
    assert(next_iterate(c, z0) == c);
    let s1 = step_spec(s, t, idx0);
    assert(s1 == (PlaneSample::Stopped { c, step: idx0 }));
    lemma_stopped_frozen(s1, t, (n - 1) as nat, (idx0 + 1) as u32);
    assert(run_spec(s, t, n, idx0) == run_spec(s1, t, (n - 1) as nat, (idx0 + 1) as u32));
}

/// One advance of a real iterate at or beyond a real seed past two plane
/// units at least doubles it: with `z >= c > 2` real, `z' = z*z/1 + c >= 2z`.
proof fn lemma_real_growth_step(c: Cpx, z: Cpx)
    requires
        c.im == 0,
        2 * FIX_ONE + 1 <= c.re,
        c.bounded(SEED_LIMIT as int),
        z.im == 0,
        z.re >= c.re,
        z.bounded(ITER_LIMIT as int),
    ensures
        next_iterate(c, z).im == 0,
        next_iterate(c, z).re >= 2 * z.re,
{
    lemma_sqr_add_mag(z, c);
    assert(z.re * z.re - z.im * z.im == z.re * z.re && 2 * z.re * z.im == 0) by (nonlinear_arith)
        requires
            z.im == 0,
    ;
    assert(z.re * z.re >= (FIX_ONE as int) * (2 * z.re)) by (nonlinear_arith)
        requires
            z.re >= 2 * FIX_ONE,
    ;
    vstd::arithmetic::div_mod::lemma_div_is_ordered(
        (FIX_ONE as int) * (2 * z.re),
        z.re * z.re,
        FIX_ONE as int,
    );
    vstd::arithmetic::div_mod::lemma_div_multiples_vanish(2 * z.re, FIX_ONE as int);
}

/// While it stays running, a real iterate at least doubles every step; once
/// its growth floor outruns the component range a running iterate cannot
/// occupy, the sample must have stopped.
proof fn lemma_real_growth_run(c: Cpx, z: Cpx, t: int, n: nat, idx0: u32, g: int)
    requires
        c.im == 0,
        2 * FIX_ONE + 1 <= c.re,
        c.bounded(SEED_LIMIT as int),
        z.im == 0,
        z.re >= c.re,
        z.re >= g,
        z.bounded(ITER_LIMIT as int),
        0 <= t <= THRESHOLD_LIMIT,
        g * pow2(n) > ITER_LIMIT as int,
        g >= 1,
    ensures
        !run_spec(PlaneSample::Running { c, z }, t, n, idx0).is_running(),
    decreases n,
{
    let s = PlaneSample::Running { c, z };
    if n == 0 {
        vstd::arithmetic::power2::lemma2_to64();
        assert(g * pow2(0) == g) by (nonlinear_arith)
            requires
                pow2(0) == 1,
        ;
        assert(false);
    } else {
        lemma_real_growth_step(c, z);
        let zn = next_iterate(c, z);
        let s1 = step_spec(s, t, idx0);
        if norm_sqr_spec(zn) > t {
            assert(s1 == (PlaneSample::Stopped { c, step: idx0 }));
            lemma_stopped_frozen(s1, t, (n - 1) as nat, (idx0 + 1) as u32);
        } else {
            lemma_store_bounds(zn, t);
            assert(s1 == (PlaneSample::Running { c, z: zn }));
            vstd::arithmetic::power2::lemma_pow2_unfold(n);
            assert((2 * g) * pow2((n - 1) as nat) == g * pow2(n)) by (nonlinear_arith)
                requires
                    pow2(n) == 2 * pow2((n - 1) as nat),
            ;
            lemma_real_growth_run(c, zn, t, (n - 1) as nat, (idx0 + 1) as u32, 2 * g);
        }
        assert(run_spec(s, t, n, idx0) == run_spec(s1, t, (n - 1) as nat, (idx0 + 1) as u32));
    }
}

/// Escape-time safety on the real axis: every real seed beyond two plane
/// units stops within sixteen steps, at every threshold.  The first advance
/// moves the iterate to the seed; each later advance at least doubles it, so
/// its magnitude outruns the range a running iterate can occupy.
pub proof fn lemma_real_seed_escapes(c: Cpx, t: int, n: nat, idx0: u32)
    requires
        c.im == 0,
        2 * FIX_ONE + 1 <= c.re,
        c.bounded(SEED_LIMIT as int),
        0 <= t <= THRESHOLD_LIMIT,
        n >= 16,
    ensures
        !run_spec(fresh_spec(c), t, n, idx0).is_running(),
    decreases n,
{
    let s = fresh_spec(c);
    let z0 = Cpx::zero_spec();
    assert(sqr_add_re(z0, c) == c.re && sqr_add_im(z0, c) == c.im);
    assert(next_iterate(c, z0) == c);
    let s1 = step_spec(s, t, idx0);
    if norm_sqr_spec(c) > t {
        assert(s1 == (PlaneSample::Stopped { c, step: idx0 }));
        lemma_stopped_frozen(s1, t, (n - 1) as nat, (idx0 + 1) as u32);
    } else {
        assert(s1 == (PlaneSample::Running { c, z: c }));
        vstd::arithmetic::power2::lemma2_to64();
        if (n - 1) as nat > 15 {
            vstd::arithmetic::power2::lemma_pow2_strictly_increases(15, (n - 1) as nat);
        }
        assert(c.re * pow2((n - 1) as nat) > ITER_LIMIT as int) by (nonlinear_arith)
            requires
                c.re >= 2 * FIX_ONE + 1,
                pow2((n - 1) as nat) >= 0x8000,
                2 * FIX_ONE + 1 == 33554433,
                ITER_LIMIT == 69809995776,
        ;
        lemma_real_growth_run(c, c, t, (n - 1) as nat, (idx0 + 1) as u32, c.re as int);
    }
    assert(run_spec(s, t, n, idx0) == run_spec(s1, t, (n - 1) as nat, (idx0 + 1) as u32));
}

/// One executed iteration step: exactly `step_spec`.
pub fn step_sample(s: PlaneSample, t: i64, idx: u32) -> (r: PlaneSample)
    requires
        s.wf(),
        0 <= t <= THRESHOLD_LIMIT,
    ensures
        r == step_spec(s, t as int, idx),
        r.wf(),
{
    proof {
        lemma_step_wf(s, t as int, idx);
    }
    match s {
        PlaneSample::Running { c, z } => {
            proof {
                lemma_sqr_add_mag(z, c);
            }
            let zn: Cpx = sqr_add(z, c);
            let nsq: i128 = norm_sqr_wide(zn);
            if nsq > t as i128 {
                PlaneSample::Stopped { c, step: idx }
            } else {
                PlaneSample::Running { c, z: zn }
            }
        },
        PlaneSample::Stopped { .. } => s,
    }
}

} // verus!
