//! The iteration engine: seeding a field from a frame and advancing every
//! sample, with the escape-time and trajectory-density side effects.
//!
//! Within one step every sample is advanced from its prior-state value; no
//! sample's transition reads another's post-step state.  A stopped sample is
//! never re-advanced within a pass.

use vstd::prelude::*;
use vstd::arithmetic::div_mod::lemma_fundamental_div_mod_converse;
use crate::complex::{Cpx, sqr_add, norm_sqr_wide, norm_sqr_spec, lemma_sqr_add_mag, lemma_store_bounds};
use crate::fixed::THRESHOLD_LIMIT;
use crate::sample::{PlaneSample, fresh_spec, next_iterate, step_spec, run_spec};
use crate::mapper::Frame;
use crate::mapper::forward;
use crate::colorize::{esc_r, esc_g, esc_b, escape_color};
use crate::histogram::VisitHistogram;

verus! {

/// Every sample of a buffer is well-formed.
pub open spec fn all_wf(s: Seq<PlaneSample>) -> bool {
    forall|k: int| 0 <= k < s.len() ==> #[trigger] s[k].wf()
}

/// The fresh sample seeded for flat index `k` of the frame's grid, row-major.
pub open spec fn seeded_at(frame: Frame, k: int) -> PlaneSample {
    fresh_spec(
        Cpx {
            re: frame.fwd_re(k % (frame.width as int)) as i64,
            im: frame.fwd_im(k / (frame.width as int)) as i64,
        },
    )
}

/// The whole freshly seeded field of a frame.
pub open spec fn seeded_samples(frame: Frame) -> Seq<PlaneSample> {
    Seq::new((frame.width * frame.height) as nat, |k: int| seeded_at(frame, k))
}

/// A field: the frame it was seeded for and one sample per pixel, row-major.
pub struct Field {
    pub frame: Frame,
    pub samples: Vec<PlaneSample>,
}

impl Field {
    pub open spec fn wf(self) -> bool {
        &&& self.frame.wf()
        &&& self.samples@.len() == self.frame.width * self.frame.height
        &&& all_wf(self.samples@)
    }
}

/// Seed a fresh field: one `Running` sample per pixel, its seed the plane
/// value of the pixel and its iterate at the origin.
pub fn seed_field(frame: &Frame) -> (r: Field)
    requires
        frame.wf(),
    ensures
        r.wf(),
        r.frame == *frame,
        r.samples@ == seeded_samples(*frame),
{
    let w: usize = frame.width;
    let h: usize = frame.height;
    let mut samples: Vec<PlaneSample> = Vec::new();
    let mut y: usize = 0;
    proof {
        assert((h as int) * (w as int) == (w as int) * (h as int)) by (nonlinear_arith);
    }
    while y < h
        invariant
            frame.wf(),
            w == frame.width,
            h == frame.height,
            y <= h,
            samples@.len() == y * w,
            (h as int) * (w as int) == (w as int) * (h as int),
            forall|k: int| 0 <= k < y * w ==> #[trigger] samples@[k] == seeded_at(*frame, k),
            all_wf(samples@),
        decreases h - y,
    {
        let mut x: usize = 0;
        proof {
            assert((y as int) * (w as int) + w <= (h as int) * (w as int)) by (nonlinear_arith)
                requires
                    0 <= y < h,
                    w >= 1,
            ;
        }
        while x < w
            invariant
                frame.wf(),
                w == frame.width,
                h == frame.height,
                y < h,
                x <= w,
                (y as int) * (w as int) + w <= (h as int) * (w as int),
                (h as int) * (w as int) == (w as int) * (h as int),
                samples@.len() == y * w + x,
                forall|k: int| 0 <= k < y * w + x ==> #[trigger] samples@[k] == seeded_at(*frame, k),
                all_wf(samples@),
            decreases w - x,
        {
            let c: Cpx = forward(frame, x, y);
            proof {
                lemma_fundamental_div_mod_converse(
                    (y as int) * (w as int) + x,
                    w as int,
                    y as int,
                    x as int,
                );
            }
            samples.push(PlaneSample::Running { c, z: Cpx::zero() });
            x = x + 1;
        }
        y = y + 1;
        proof {
            assert((y as int) * (w as int) == (y - 1) * (w as int) + (w as int)) by (nonlinear_arith);
        }
    }
    proof {
        assert(samples@ =~= seeded_samples(*frame));
    }
    Field { frame: *frame, samples }
}

/// A running sample whose advance escapes: this step stops it.
pub open spec fn escapes_now(s: PlaneSample, t: int) -> bool {
    match s {
        PlaneSample::Running { c, z } => norm_sqr_spec(next_iterate(c, z)) > t,
        PlaneSample::Stopped { .. } => false,
    }
}

/// Pixel `kk` of the flat byte buffer holds the tint of step `idx`.
pub open spec fn tinted(p: Seq<u8>, kk: int, idx: u32) -> bool {
    &&& p[3 * kk] == esc_r(idx)
    &&& p[3 * kk + 1] == esc_g(idx)
    &&& p[3 * kk + 2] == esc_b(idx)
}

/// One escape-time step over the whole field: every sample advances from its
/// prior value, and each sample that stops this step writes the tint of the
/// step index into its pixel; all other pixels are untouched.
pub fn step_field_escape(field: &mut Field, pixels: &mut Vec<u8>, t: i64, idx: u32)
    requires
        old(field).wf(),
        0 <= t <= THRESHOLD_LIMIT,
        old(pixels)@.len() == 3 * old(field).samples@.len(),
    ensures
        final(field).wf(),
        final(field).frame == old(field).frame,
        final(field).samples@.len() == old(field).samples@.len(),
        forall|k: int|
            0 <= k < old(field).samples@.len() ==> #[trigger] final(field).samples@[k] == step_spec(
                old(field).samples@[k],
                t as int,
                idx,
            ),
        final(pixels)@.len() == old(pixels)@.len(),
        forall|k: int|
            0 <= k < old(field).samples@.len() && escapes_now(old(field).samples@[k], t as int)
                ==> #[trigger] tinted(final(pixels)@, k, idx),
        forall|j: int|
            0 <= j < final(pixels)@.len() && !escapes_now(old(field).samples@[j / 3], t as int)
                ==> #[trigger] final(pixels)@[j] == old(pixels)@[j],
{
    let n: usize = field.samples.len();
    let np: usize = pixels.len();
    let mut k: usize = 0;
    while k < n
        invariant
            0 <= t <= THRESHOLD_LIMIT,
            k <= n,
            n == field.samples@.len(),
            n == old(field).samples@.len(),
            np == pixels@.len(),
            np == old(pixels)@.len(),
            np == 3 * n,
            field.frame == old(field).frame,
            field.frame.wf(),
            all_wf(field.samples@),
            all_wf(old(field).samples@),
            forall|kk: int|
                0 <= kk < k ==> #[trigger] field.samples@[kk] == step_spec(
                    old(field).samples@[kk],
                    t as int,
                    idx,
                ),
            forall|kk: int| k <= kk < n ==> #[trigger] field.samples@[kk] == old(
                field,
            ).samples@[kk],
            forall|kk: int|
                0 <= kk < k && escapes_now(old(field).samples@[kk], t as int)
                    ==> #[trigger] tinted(pixels@, kk, idx),
            forall|j: int|
                0 <= j < np && !(j / 3 < k && escapes_now(old(field).samples@[j / 3], t as int))
                    ==> #[trigger] pixels@[j] == old(pixels)@[j],
        decreases n - k,
    {
        let ghost prev_samples = field.samples@;
        let ghost prev_pixels = pixels@;
        let s: PlaneSample = field.samples[k];
        proof {
            assert(field.samples@[k as int].wf());
        }
        match s {
            PlaneSample::Running { c, z } => {
                proof {
                    lemma_sqr_add_mag(z, c);
                }
                let zn: Cpx = sqr_add(z, c);
                let nsq: i128 = norm_sqr_wide(zn);
                if nsq > t as i128 {
                    let (cr, cg, cb) = escape_color(idx);
                    proof {
                        assert(3 * (k as int) == 3 * k && 3 * (k as int) + 2 < np);
                    }
                    pixels.set(3 * k, cr);
                    pixels.set(3 * k + 1, cg);
                    pixels.set(3 * k + 2, cb);
                    field.samples.set(k, PlaneSample::Stopped { c, step: idx });
                } else {
                    proof {
                        lemma_store_bounds(zn, t as int);
                    }
                    field.samples.set(k, PlaneSample::Running { c, z: zn });
                }
            },
            PlaneSample::Stopped { .. } => {},
        }
        proof {
            assert forall|kk: int| 0 <= kk < n implies #[trigger] field.samples@[kk].wf() by {
                if kk != k {
                    assert(field.samples@[kk] == prev_samples[kk]);
                    assert(prev_samples[kk].wf());
                }
            }
            assert(forall|j: int|
                0 <= j < np && j != 3 * (k as int) && j != 3 * (k as int) + 1 && j != 3 * (
                k as int) + 2 ==> #[trigger] pixels@[j] == prev_pixels[j]);
            assert(forall|j: int| 0 <= j < np ==> 3 * #[trigger] (j / 3) <= j < 3 * (j / 3) + 3);
            assert forall|kk: int|
                0 <= kk < k + 1 && escapes_now(old(field).samples@[kk], t as int) implies #[trigger] tinted(
                pixels@,
                kk,
                idx,
            ) by {
                if kk < k {
                    assert(tinted(prev_pixels, kk, idx));
                    assert(pixels@[3 * kk] == prev_pixels[3 * kk] && pixels@[3 * kk + 1]
                        == prev_pixels[3 * kk + 1] && pixels@[3 * kk + 2] == prev_pixels[3 * kk
                        + 2]);
                }
            }
        }
        k = k + 1;
    }
}

/// A worker's classification pass: advance every sample of `[start, end)`
/// for the full budget, with no side effects and no early exit.
pub fn advance_range(samples: &mut Vec<PlaneSample>, start: usize, end: usize, t: i64, iters: u32)
    requires
        start <= end <= old(samples)@.len(),
        all_wf(old(samples)@),
        0 <= t <= THRESHOLD_LIMIT,
        iters < u32::MAX,
    ensures
        final(samples)@.len() == old(samples)@.len(),
        all_wf(final(samples)@),
        forall|k: int|
            start <= k < end ==> #[trigger] final(samples)@[k] == run_spec(
                old(samples)@[k],
                t as int,
                iters as nat,
                0,
            ),
        forall|k: int|
            0 <= k < old(samples)@.len() && !(start <= k < end) ==> #[trigger] final(samples)@[k]
                == old(samples)@[k],
{
    let mut i: u32 = 0;
    while i < iters
        invariant
            start <= end <= samples@.len(),
            samples@.len() == old(samples)@.len(),
            all_wf(samples@),
            0 <= t <= THRESHOLD_LIMIT,
            i <= iters < u32::MAX,
            forall|k: int|
                start <= k < end ==> #[trigger] run_spec(
                    samples@[k],
                    t as int,
                    (iters - i) as nat,
                    i,
                ) == run_spec(old(samples)@[k], t as int, iters as nat, 0),
            forall|k: int|
                0 <= k < samples@.len() && !(start <= k < end) ==> #[trigger] samples@[k] == old(
                    samples,
                )@[k],
        decreases iters - i,
    {
        let ghost snap = samples@;
        let mut k: usize = start;
        while k < end
            invariant
                start <= k <= end <= samples@.len(),
                samples@.len() == snap.len(),
                all_wf(snap),
                all_wf(samples@),
                0 <= t <= THRESHOLD_LIMIT,
                i < iters < u32::MAX,
                forall|kk: int|
                    start <= kk < k ==> #[trigger] samples@[kk] == step_spec(snap[kk], t as int, i),
                forall|kk: int|
                    0 <= kk < samples@.len() && !(start <= kk < k) ==> #[trigger] samples@[kk]
                        == snap[kk],
            decreases end - k,
        {
            let ghost prev = samples@;
            let s: PlaneSample = samples[k];
            proof {
                assert(samples@[k as int].wf());
            }
            let stepped: PlaneSample = crate::sample::step_sample(s, t, i);
            samples.set(k, stepped);
            proof {
                assert forall|kk: int| 0 <= kk < samples@.len() implies #[trigger] samples@[kk].wf()
                by {
                    if kk != k {
                        assert(samples@[kk] == prev[kk]);
                        assert(prev[kk].wf());
                    }
                }
            }
            k = k + 1;
        }
        proof {
            assert forall|k: int| start <= k < end implies #[trigger] run_spec(
                samples@[k],
                t as int,
                (iters - i - 1) as nat,
                (i + 1) as u32,
            ) == run_spec(old(samples)@[k], t as int, iters as nat, 0) by {
                assert(samples@[k] == step_spec(snap[k], t as int, i));
                assert(run_spec(snap[k], t as int, (iters - i) as nat, i) == run_spec(
                    step_spec(snap[k], t as int, i),
                    t as int,
                    (iters - i - 1) as nat,
                    (i + 1) as u32,
                ));
            }
        }
        i = i + 1;
    }
    proof {
        assert forall|k: int| start <= k < end implies #[trigger] samples@[k] == run_spec(
            old(samples)@[k],
            t as int,
            iters as nat,
            0,
        ) by {
            assert(run_spec(samples@[k], t as int, (iters - iters) as nat, iters) == run_spec(
                old(samples)@[k],
                t as int,
                iters as nat,
                0,
            ));
            assert(run_spec(samples@[k], t as int, 0, iters) == samples@[k]);
        }
    }
}

/// Re-seed between the classification pass and the accumulation pass.
///
/// Plain mode selects the seeds that escaped within the budget: stopped
/// samples are re-armed with their iterate at the origin, still-running ones
/// are retired.  Inverted mode selects the seeds that did not escape:
/// still-running samples are re-armed, stopped ones stay retired.
pub open spec fn reseed_spec(s: PlaneSample, inverted: bool) -> PlaneSample {
    if inverted {
        match s {
            PlaneSample::Running { c, .. } => PlaneSample::Running { c, z: Cpx::zero_spec() },
            PlaneSample::Stopped { .. } => s,
        }
    } else {
        match s {
            PlaneSample::Running { c, .. } => PlaneSample::Stopped { c, step: 0 },
            PlaneSample::Stopped { c, .. } => PlaneSample::Running { c, z: Cpx::zero_spec() },
        }
    }
}

/// Apply `reseed_spec` to every sample.
pub fn reseed_for_density(samples: &mut Vec<PlaneSample>, inverted: bool)
    requires
        all_wf(old(samples)@),
    ensures
        final(samples)@.len() == old(samples)@.len(),
        all_wf(final(samples)@),
        forall|k: int|
            0 <= k < old(samples)@.len() ==> #[trigger] final(samples)@[k] == reseed_spec(
                old(samples)@[k],
                inverted,
            ),
{
    let n: usize = samples.len();
    let mut k: usize = 0;
    while k < n
        invariant
            k <= n,
            n == samples@.len(),
            n == old(samples)@.len(),
            all_wf(samples@),
            forall|kk: int|
                0 <= kk < k ==> #[trigger] samples@[kk] == reseed_spec(old(samples)@[kk], inverted),
            forall|kk: int| k <= kk < n ==> #[trigger] samples@[kk] == old(samples)@[kk],
        decreases n - k,
    {
        let ghost prev = samples@;
        let s: PlaneSample = samples[k];
        proof {
            assert(samples@[k as int].wf());
        }
        let r: PlaneSample = if inverted {
            match s {
                PlaneSample::Running { c, .. } => PlaneSample::Running { c, z: Cpx::zero() },
                PlaneSample::Stopped { .. } => s,
            }
        } else {
            match s {
                PlaneSample::Running { c, .. } => PlaneSample::Stopped { c, step: 0 },
                PlaneSample::Stopped { c, .. } => PlaneSample::Running { c, z: Cpx::zero() },
            }
        };
        samples.set(k, r);
        proof {
            assert forall|kk: int| 0 <= kk < samples@.len() implies #[trigger] samples@[kk].wf() by {
                if kk != k {
                    assert(samples@[kk] == prev[kk]);
                    assert(prev[kk].wf());
                }
            }
        }
        k = k + 1;
    }
}

} // verus!

verus! {

/// No sample of the buffer is still running.
pub open spec fn none_running(s: Seq<PlaneSample>) -> bool {
    forall|k: int| 0 <= k < s.len() ==> !(#[trigger] s[k]).is_running()
}

/// The pixel a sample's advance visits this step: a running sample that has
/// not escaped advances to `z * z + c`, and that iterate projects through
/// the inverse mapping; projections outside the frame, stopping samples and
/// stopped samples visit nothing.
pub open spec fn visit_of(s: PlaneSample, frame: Frame, t: int) -> Option<(int, int)> {
    match s {
        PlaneSample::Running { c, z } => {
            let zn = next_iterate(c, z);
            if norm_sqr_spec(zn) > t {
                None
            } else if frame.in_frame(zn) {
                Some((frame.inv_x(zn), frame.inv_y(zn)))
            } else {
                None
            }
        },
        PlaneSample::Stopped { .. } => None,
    }
}

/// Count a visit into a flat row-major buffer of width `w`.
pub open spec fn bump_cell(h: Seq<int>, w: int, v: Option<(int, int)>) -> Seq<int> {
    match v {
        Some(p) => h.update(p.1 * w + p.0, h[p.1 * w + p.0] + 1),
        None => h,
    }
}

/// The histogram after the visits of one step of the first `k` samples.
pub open spec fn accum_prefix(
    samples: Seq<PlaneSample>,
    h: Seq<int>,
    frame: Frame,
    t: int,
    k: nat,
) -> Seq<int>
    decreases k,
{
    if k == 0 {
        h
    } else {
        bump_cell(
            accum_prefix(samples, h, frame, t, (k - 1) as nat),
            frame.width as int,
            visit_of(samples[k - 1 as int], frame, t),
        )
    }
}

/// Every sample advanced one step.
pub open spec fn stepped(samples: Seq<PlaneSample>, t: int, idx: u32) -> Seq<PlaneSample> {
    samples.map_values(|s: PlaneSample| step_spec(s, t, idx))
}

/// The histogram after `n` accumulation steps over a sample buffer.
pub open spec fn accum_run(
    samples: Seq<PlaneSample>,
    h: Seq<int>,
    frame: Frame,
    t: int,
    n: nat,
    idx0: u32,
) -> Seq<int>
    decreases n,
{
    if n == 0 {
        h
    } else {
        accum_run(
            stepped(samples, t, idx0),
            accum_prefix(samples, h, frame, t, samples.len()),
            frame,
            t,
            (n - 1) as nat,
            (idx0 + 1) as u32,
        )
    }
}

/// A step over a buffer with nothing running visits nothing.
proof fn lemma_accum_prefix_frozen(
    samples: Seq<PlaneSample>,
    h: Seq<int>,
    frame: Frame,
    t: int,
    k: nat,
)
    requires
        none_running(samples),
        k <= samples.len(),
    ensures
        accum_prefix(samples, h, frame, t, k) == h,
    decreases k,
{
    if k > 0 {
        lemma_accum_prefix_frozen(samples, h, frame, t, (k - 1) as nat);
        assert(!samples[k - 1 as int].is_running());
        assert(visit_of(samples[k - 1 as int], frame, t) is None);
    }
}

/// A buffer with nothing running is unchanged by a step.
proof fn lemma_stepped_frozen_all(samples: Seq<PlaneSample>, t: int, idx: u32)
    requires
        none_running(samples),
    ensures
        stepped(samples, t, idx) == samples,
{
    assert forall|k: int| 0 <= k < samples.len() implies stepped(samples, t, idx)[k]
        == samples[k] by {
        assert(!samples[k].is_running());
    }
    assert(stepped(samples, t, idx) =~= samples);
}

/// A whole accumulation run over a buffer with nothing running leaves the
/// histogram untouched: the early exit of a worker is sound.
proof fn lemma_accum_run_frozen(
    samples: Seq<PlaneSample>,
    h: Seq<int>,
    frame: Frame,
    t: int,
    n: nat,
    idx0: u32,
)
    requires
        none_running(samples),
    ensures
        accum_run(samples, h, frame, t, n, idx0) == h,
    decreases n,
{
    if n > 0 {
        lemma_accum_prefix_frozen(samples, h, frame, t, samples.len());
        lemma_stepped_frozen_all(samples, t, idx0);
        lemma_accum_run_frozen(samples, h, frame, t, (n - 1) as nat, (idx0 + 1) as u32);
    }
}

} // verus!

verus! {

/// A worker's accumulation pass over its own chunk `[start, end)`: advance
/// every sample of the chunk for the full budget, counting into the worker's
/// private histogram the pixel visited by every advance that stays running,
/// and stopping early once nothing in the chunk is running.
pub fn accumulate_range(
    samples: &mut Vec<PlaneSample>,
    start: usize,
    end: usize,
    frame: &Frame,
    t: i64,
    iters: u32,
    hist: &mut VisitHistogram,
)
    requires
        start <= end <= old(samples)@.len(),
        all_wf(old(samples)@),
        frame.wf(),
        0 <= t <= THRESHOLD_LIMIT,
        iters < u32::MAX,
        old(hist).wf(),
        old(hist).width == frame.width,
        old(hist).height == frame.height,
        forall|c: int|
            0 <= c < old(hist).cells().len() ==> #[trigger] old(hist).cells()[c] + (iters as int) * (
            end - start) <= u64::MAX,
    ensures
        final(samples)@.len() == old(samples)@.len(),
        all_wf(final(samples)@),
        forall|k: int|
            start <= k < end ==> #[trigger] final(samples)@[k] == run_spec(
                old(samples)@[k],
                t as int,
                iters as nat,
                0,
            ),
        forall|k: int|
            0 <= k < old(samples)@.len() && !(start <= k < end) ==> #[trigger] final(samples)@[k]
                == old(samples)@[k],
        final(hist).wf(),
        final(hist).width == old(hist).width,
        final(hist).height == old(hist).height,
        final(hist).cells() == accum_run(
            old(samples)@.subrange(start as int, end as int),
            old(hist).cells(),
            *frame,
            t as int,
            iters as nat,
            0,
        ),
        final(hist).cells().len() == old(hist).cells().len(),
        forall|c: int|
            0 <= c < final(hist).cells().len() ==> #[trigger] final(hist).cells()[c] <= old(
                hist,
            ).cells()[c] + (iters as int) * (end - start),
{
    let len_r: usize = end - start;
    let mut i: u32 = 0;
    let mut live: bool = true;
    proof {
        assert((0 as int) * (len_r as int) == 0) by (nonlinear_arith);
        assert((iters as int) * (len_r as int) >= 0) by (nonlinear_arith);
    }
    while i < iters && live
        invariant
            start <= end <= samples@.len(),
            end - start == len_r,
            samples@.len() == old(samples)@.len(),
            all_wf(samples@),
            frame.wf(),
            0 <= t <= THRESHOLD_LIMIT,
            i <= iters < u32::MAX,
            hist.wf(),
            hist.width == frame.width,
            hist.height == frame.height,
            hist.width == old(hist).width,
            hist.height == old(hist).height,
            hist.cells().len() == old(hist).cells().len(),
            forall|c: int|
                0 <= c < old(hist).cells().len() ==> #[trigger] old(hist).cells()[c] + (
                iters as int) * (len_r as int) <= u64::MAX,
            forall|c: int|
                0 <= c < hist.cells().len() ==> #[trigger] hist.cells()[c] <= old(hist).cells()[c]
                    + (i as int) * (len_r as int),
            forall|k: int|
                start <= k < end ==> #[trigger] run_spec(
                    samples@[k],
                    t as int,
                    (iters - i) as nat,
                    i,
                ) == run_spec(old(samples)@[k], t as int, iters as nat, 0),
            forall|k: int|
                0 <= k < samples@.len() && !(start <= k < end) ==> #[trigger] samples@[k] == old(
                    samples,
                )@[k],
            accum_run(
                samples@.subrange(start as int, end as int),
                hist.cells(),
                *frame,
                t as int,
                (iters - i) as nat,
                i,
            ) == accum_run(
                old(samples)@.subrange(start as int, end as int),
                old(hist).cells(),
                *frame,
                t as int,
                iters as nat,
                0,
            ),
            !live ==> none_running(samples@.subrange(start as int, end as int)),
        decreases iters - i,
    {
        let ghost snap = samples@;
        let ghost snap_h = hist.cells();
        let mut any: bool = false;
        let mut k: usize = start;
        proof {
            assert((i as int) * (len_r as int) + (len_r as int) == (i + 1) * (len_r as int))
                by (nonlinear_arith);
            assert((i + 1) * (len_r as int) <= (iters as int) * (len_r as int)) by (nonlinear_arith)
                requires
                    i + 1 <= iters,
                    len_r >= 0,
            ;
        }
        while k < end
            invariant
                start <= k <= end <= samples@.len(),
                end - start == len_r,
                samples@.len() == snap.len(),
                all_wf(snap),
                all_wf(samples@),
                frame.wf(),
                0 <= t <= THRESHOLD_LIMIT,
                i < iters < u32::MAX,
                hist.wf(),
                hist.width == frame.width,
                hist.height == frame.height,
                hist.width == old(hist).width,
                hist.height == old(hist).height,
                hist.cells().len() == snap_h.len(),
                forall|c: int|
                    0 <= c < snap_h.len() ==> #[trigger] snap_h[c] + (len_r as int) <= u64::MAX,
                forall|c: int|
                    0 <= c < hist.cells().len() ==> #[trigger] hist.cells()[c] <= snap_h[c] + (k
                        - start),
                forall|kk: int|
                    start <= kk < k ==> #[trigger] samples@[kk] == step_spec(snap[kk], t as int, i),
                forall|kk: int|
                    0 <= kk < samples@.len() && !(start <= kk < k) ==> #[trigger] samples@[kk]
                        == snap[kk],
                hist.cells() == accum_prefix(
                    snap.subrange(start as int, end as int),
                    snap_h,
                    *frame,
                    t as int,
                    (k - start) as nat,
                ),
                any || (forall|kk: int|
                    start <= kk < k ==> !(#[trigger] snap[kk]).is_running()),
            decreases end - k,
        {
            let ghost prev = samples@;
            let ghost prev_h = hist.cells();
            let s: PlaneSample = samples[k];
            proof {
                assert(samples@[k as int].wf());
                assert(snap.subrange(start as int, end as int)[k - start] == snap[k as int]);
            }
            match s {
                PlaneSample::Running { c, z } => {
                    any = true;
                    proof {
                        lemma_sqr_add_mag(z, c);
                    }
                    let zn: Cpx = sqr_add(z, c);
                    let nsq: i128 = norm_sqr_wide(zn);
                    if nsq > t as i128 {
                        samples.set(k, PlaneSample::Stopped { c, step: i });
                    } else {
                        proof {
                            lemma_store_bounds(zn, t as int);
                        }
                        match crate::mapper::inverse(frame, zn) {
                            Some((px, py)) => {
                                proof {
                                    assert(0 <= (py as int) * (hist.width as int) + px
                                        < hist.cells().len()) by (nonlinear_arith)
                                        requires
                                            0 <= px < hist.width,
                                            0 <= py < hist.height,
                                            hist.cells().len() == (hist.width as int) * (
                                            hist.height as int),
                                    ;
                                    assert(hist.cells()[(py as int) * (frame.width as int)
                                        + px] <= snap_h[(py as int) * (frame.width as int) + px] + (
                                    k - start));
                                }
                                hist.bump(px, py);
                            },
                            None => {},
                        }
                        samples.set(k, PlaneSample::Running { c, z: zn });
                    }
                },
                PlaneSample::Stopped { .. } => {},
            }
            proof {
                assert forall|kk: int| 0 <= kk < samples@.len() implies #[trigger] samples@[kk].wf()
                by {
                    if kk != k {
                        assert(samples@[kk] == prev[kk]);
                        assert(prev[kk].wf());
                    }
                }
                assert(accum_prefix(
                    snap.subrange(start as int, end as int),
                    snap_h,
                    *frame,
                    t as int,
                    (k + 1 - start) as nat,
                ) == bump_cell(
                    accum_prefix(
                        snap.subrange(start as int, end as int),
                        snap_h,
                        *frame,
                        t as int,
                        (k - start) as nat,
                    ),
                    frame.width as int,
                    visit_of(snap[k as int], *frame, t as int),
                ));
                assert(hist.cells() == bump_cell(
                    prev_h,
                    frame.width as int,
                    visit_of(snap[k as int], *frame, t as int),
                ));
            }
            k = k + 1;
        }
        proof {
            assert(samples@.subrange(start as int, end as int) =~= stepped(
                snap.subrange(start as int, end as int),
                t as int,
                i,
            ));
            assert(snap.subrange(start as int, end as int).len() == len_r as int);
            assert(accum_run(
                snap.subrange(start as int, end as int),
                snap_h,
                *frame,
                t as int,
                (iters - i) as nat,
                i,
            ) == accum_run(
                samples@.subrange(start as int, end as int),
                hist.cells(),
                *frame,
                t as int,
                (iters - i - 1) as nat,
                (i + 1) as u32,
            ));
            assert forall|kk: int| start <= kk < end implies #[trigger] run_spec(
                samples@[kk],
                t as int,
                (iters - i - 1) as nat,
                (i + 1) as u32,
            ) == run_spec(old(samples)@[kk], t as int, iters as nat, 0) by {
                assert(samples@[kk] == step_spec(snap[kk], t as int, i));
                assert(run_spec(snap[kk], t as int, (iters - i) as nat, i) == run_spec(
                    step_spec(snap[kk], t as int, i),
                    t as int,
                    (iters - i - 1) as nat,
                    (i + 1) as u32,
                ));
            }
            if !any {
                assert forall|kk: int|
                    0 <= kk < samples@.subrange(start as int, end as int).len() implies !(
                #[trigger] samples@.subrange(start as int, end as int)[kk]).is_running() by {
                    assert(!snap[start + kk].is_running());
                    assert(samples@[start + kk] == step_spec(snap[start + kk], t as int, i));
                }
            }
        }
        live = any;
        i = i + 1;
    }
    proof {
        let sub = samples@.subrange(start as int, end as int);
        if i < iters {
            lemma_accum_run_frozen(sub, hist.cells(), *frame, t as int, (iters - i) as nat, i);
            assert forall|k: int| start <= k < end implies #[trigger] samples@[k] == run_spec(
                old(samples)@[k],
                t as int,
                iters as nat,
                0,
            ) by {
                assert(sub[k - start] == samples@[k]);
                assert(!samples@[k].is_running());
                crate::sample::lemma_stopped_frozen(samples@[k], t as int, (iters - i) as nat, i);
            }
        } else {
            assert forall|k: int| start <= k < end implies #[trigger] samples@[k] == run_spec(
                old(samples)@[k],
                t as int,
                iters as nat,
                0,
            ) by {
                assert(run_spec(samples@[k], t as int, (iters - i) as nat, i) == run_spec(
                    old(samples)@[k],
                    t as int,
                    iters as nat,
                    0,
                ));
                assert(run_spec(samples@[k], t as int, 0, i) == samples@[k]);
            }
        }
        assert((i as int) * (len_r as int) <= (iters as int) * (len_r as int)) by (nonlinear_arith)
            requires
                0 <= i <= iters,
                len_r >= 0,
        ;
    }
}

} // verus!
