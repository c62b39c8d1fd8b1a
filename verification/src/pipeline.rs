//! The two rendering pipelines over the default view of the set, and the
//! fail-fast validation of their configuration.
//!
//! Both pipelines seed the field for a frame three plane units wide centered
//! at `-0.5 + 0i`.  The escape-time pipeline advances the whole field one
//! step at a time, tinting pixels as their samples stop.  The density
//! pipeline classifies seeds chunk by chunk, re-seeds the selected ones,
//! accumulates per-chunk visit histograms, merges them, and shades the
//! merged counts.

use vstd::prelude::*;
use vstd::arithmetic::div_mod::{
    lemma_fundamental_div_mod_converse,
    lemma_div_multiples_vanish,
    lemma_div_pos_is_pos,
    lemma_div_nonincreasing,
};
use crate::fixed::{FIX_ONE, THRESHOLD_LIMIT};
use crate::complex::Cpx;
use crate::mapper::{Frame, MAX_DIM};
use crate::sample::{PlaneSample, run_spec};
use crate::engine::{
    seed_field,
    seeded_at,
    seeded_samples,
    step_field_escape,
    advance_range,
    reseed_for_density,
    accumulate_range,
    escapes_now,
    tinted,
    all_wf,
    accum_run,
    reseed_spec,
    Field,
};
use crate::histogram::{VisitHistogram, sum_all, cell_total, lemma_sum_all_cells, lemma_cell_total_push};
use crate::partition::{chunk_bounds, chunks_of};
use crate::colorize::{esc_r, esc_g, esc_b, intensity_spec, normalize_spec, shade_density};

verus! {

/// Largest accepted iteration budget.
pub const MAX_ITERS: usize = 1048576;

/// The escape threshold of the default pipelines, in raw squared plane units.
pub const ESCAPE_THRESHOLD: i64 = 128 * FIX_ONE;

/// A configuration rejected before any computation starts.
#[derive(Clone, Copy, PartialEq, Eq, Structural, Debug)]
pub enum ConfigError {
    ZeroWidth,
    ZeroHeight,
    WidthTooLarge,
    HeightTooLarge,
    ZeroIterations,
    IterationsTooLarge,
    ZeroThreads,
    /// The seeded frame would leave the representable part of the plane.
    FrameOutOfRange,
}

/// The default frame: three plane units wide, centered at `-0.5 + 0i`.
pub open spec fn default_frame(width: usize, height: usize) -> Frame {
    Frame {
        center: Cpx { re: -8388608i64, im: 0i64 },
        scale: ((3 * FIX_ONE) as int / width as int) as i64,
        width,
        height,
    }
}

/// The error an escape-time configuration is rejected with, if any.
pub open spec fn config_err(width: usize, height: usize, iters: usize) -> Option<ConfigError> {
    if width == 0 {
        Some(ConfigError::ZeroWidth)
    } else if height == 0 {
        Some(ConfigError::ZeroHeight)
    } else if width > MAX_DIM {
        Some(ConfigError::WidthTooLarge)
    } else if height > MAX_DIM {
        Some(ConfigError::HeightTooLarge)
    } else if iters == 0 {
        Some(ConfigError::ZeroIterations)
    } else if iters > MAX_ITERS {
        Some(ConfigError::IterationsTooLarge)
    } else if !default_frame(width, height).wf() || 3 * (width * height) > usize::MAX {
        Some(ConfigError::FrameOutOfRange)
    } else {
        None
    }
}

/// The error a density configuration is rejected with, if any: the
/// escape-time checks plus a non-zero worker count.
pub open spec fn density_config_err(
    width: usize,
    height: usize,
    iters: usize,
    threads: usize,
) -> Option<ConfigError> {
    if threads == 0 {
        Some(ConfigError::ZeroThreads)
    } else {
        config_err(width, height, iters)
    }
}

/// Build the default frame and check it, mirroring `config_err` exactly.
fn checked_frame(width: usize, height: usize, iters: usize) -> (r: Result<Frame, ConfigError>)
    ensures
        r matches Ok(frame) ==> {
            &&& config_err(width, height, iters) is None
            &&& frame == default_frame(width, height)
            &&& frame.wf()
            &&& 3 * (width * height) <= usize::MAX
        },
        r matches Err(e) ==> Some(e) == config_err(width, height, iters),
{
    if width == 0 {
        return Err(ConfigError::ZeroWidth);
    }
    if height == 0 {
        return Err(ConfigError::ZeroHeight);
    }
    if width > MAX_DIM {
        return Err(ConfigError::WidthTooLarge);
    }
    if height > MAX_DIM {
        return Err(ConfigError::HeightTooLarge);
    }
    if iters == 0 {
        return Err(ConfigError::ZeroIterations);
    }
    if iters > MAX_ITERS {
        return Err(ConfigError::IterationsTooLarge);
    }
    let scale: i64 = ((3 * (FIX_ONE as u64)) / (width as u64)) as i64;
    proof {
        lemma_div_pos_is_pos(3 * (FIX_ONE as int), width as int);
        lemma_div_nonincreasing(3 * (FIX_ONE as int), width as int);
    }
    let frame = Frame { center: Cpx { re: -8388608, im: 0 }, scale, width, height };
    proof {
        assert((width as int) * (scale as int) <= 0x10000000000000 && (height as int) * (
        scale as int) <= 0x10000000000000 && (width as int) * (height as int)
            <= 0x10000000000) by (nonlinear_arith)
            requires
                1 <= width <= 0x100000,
                1 <= height <= 0x100000,
                0 <= scale <= 0x3000000,
        ;
    }
    let ws: u64 = (width as u64) * (scale as u64);
    let hs: u64 = (height as u64) * (scale as u64);
    let wh_ok: bool = 3 * ((width as u64) * (height as u64)) <= (usize::MAX as u64);
    if scale >= 1 && wh_ok && -8388608 - (ws as i64) >= -crate::fixed::SEED_LIMIT && -8388608 + (
    ws as i64) <= crate::fixed::SEED_LIMIT && 0 - (hs as i64) >= -crate::fixed::SEED_LIMIT && (
    hs as i64) <= crate::fixed::SEED_LIMIT {
        Ok(frame)
    } else {
        Err(ConfigError::FrameOutOfRange)
    }
}

/// The escape-time image of a frame: for each pixel, the tint of the step at
/// which its sample stopped, or black where the sample is still running
/// after the budget.
pub open spec fn escape_pixels(frame: Frame, t: int, iters: nat) -> Seq<u8> {
    Seq::new(
        3 * (frame.width * frame.height) as nat,
        |j: int|
            {
                let fin = run_spec(seeded_at(frame, j / 3), t, iters, 0);
                if !fin.is_running() {
                    if j % 3 == 0 {
                        esc_r(fin.stop_step())
                    } else if j % 3 == 1 {
                        esc_g(fin.stop_step())
                    } else {
                        esc_b(fin.stop_step())
                    }
                } else {
                    0u8
                }
            },
    )
}

/// Render the escape-time map: seed the default frame, advance every sample
/// for the full budget, and return the flat RGB buffer, tinted exactly where
/// samples stopped.  Rejected configurations fail fast, before any
/// computation.
pub fn mandel_brot(width: usize, height: usize, iters: usize) -> (r: Result<Vec<u8>, ConfigError>)
    ensures
        r matches Err(e) ==> Some(e) == config_err(width, height, iters),
        r matches Ok(pixels) ==> {
            &&& config_err(width, height, iters) is None
            &&& pixels@ == escape_pixels(
                default_frame(width, height),
                ESCAPE_THRESHOLD as int,
                iters as nat,
            )
        },
{
    let frame: Frame = match checked_frame(width, height, iters) {
        Ok(f) => f,
        Err(e) => {
            return Err(e);
        },
    };
    let mut field: Field = seed_field(&frame);
    let n: usize = field.samples.len();
    let mut pixels: Vec<u8> = Vec::new();
    let mut j: usize = 0;
    proof {
        assert(3 * (frame.width as int) * (frame.height as int) <= 0x30000000000)
            by (nonlinear_arith)
            requires
                1 <= frame.width <= 0x100000,
                1 <= frame.height <= 0x100000,
        ;
        assert(3 * (frame.width as int) * (frame.height as int) == 3 * ((frame.width as int) * (
        frame.height as int))) by (nonlinear_arith);
        assert(n == (frame.width as int) * (frame.height as int));
    }
    let np: usize = 3 * n;
    proof {
        assert forall|k: int| 0 <= k < n implies #[trigger] field.samples@[k] == seeded_at(
            frame,
            k,
        ) by {
            assert(field.samples@[k] == seeded_samples(frame)[k]);
        }
    }
    while j < np
        invariant
            j <= np,
            pixels@.len() == j,
            forall|i: int| 0 <= i < j ==> pixels@[i] == 0u8,
        decreases np - j,
    {
        pixels.push(0);
        j = j + 1;
    }
    let iters32: u32 = iters as u32;
    let mut i: u32 = 0;
    while i < iters32
        invariant
            field.wf(),
            field.frame == frame,
            frame == default_frame(width, height),
            n == field.samples@.len(),
            np == 3 * n,
            pixels@.len() == np,
            0 <= ESCAPE_THRESHOLD <= THRESHOLD_LIMIT,
            i <= iters32 < u32::MAX,
            iters32 == iters,
            forall|k: int|
                0 <= k < n ==> #[trigger] run_spec(
                    field.samples@[k],
                    ESCAPE_THRESHOLD as int,
                    (iters32 - i) as nat,
                    i,
                ) == run_spec(seeded_at(frame, k), ESCAPE_THRESHOLD as int, iters as nat, 0),
            forall|k: int|
                0 <= k < n && !(#[trigger] field.samples@[k]).is_running() ==> tinted(
                    pixels@,
                    k,
                    field.samples@[k].stop_step(),
                ),
            forall|k: int|
                0 <= k < n && (#[trigger] field.samples@[k]).is_running() ==> pixels@[3 * k] == 0u8
                    && pixels@[3 * k + 1] == 0u8 && pixels@[3 * k + 2] == 0u8,
        decreases iters32 - i,
    {
        let ghost snap = field.samples@;
        let ghost snap_px = pixels@;
        step_field_escape(&mut field, &mut pixels, ESCAPE_THRESHOLD, i);
        proof {
                        assert forall|k: int| 0 <= k < n implies #[trigger] run_spec(
                field.samples@[k],
                ESCAPE_THRESHOLD as int,
                (iters32 - i - 1) as nat,
                (i + 1) as u32,
            ) == run_spec(seeded_at(frame, k), ESCAPE_THRESHOLD as int, iters as nat, 0) by {
                assert(field.samples@[k] == crate::sample::step_spec(
                    snap[k],
                    ESCAPE_THRESHOLD as int,
                    i,
                ));
                assert(run_spec(snap[k], ESCAPE_THRESHOLD as int, (iters32 - i) as nat, i)
                    == run_spec(
                    crate::sample::step_spec(snap[k], ESCAPE_THRESHOLD as int, i),
                    ESCAPE_THRESHOLD as int,
                    (iters32 - i - 1) as nat,
                    (i + 1) as u32,
                ));
            }
            assert forall|k: int|
                0 <= k < n && !(#[trigger] field.samples@[k]).is_running() implies tinted(
                pixels@,
                k,
                field.samples@[k].stop_step(),
            ) by {
                lemma_div_multiples_vanish(k, 3);
                lemma_fundamental_div_mod_converse(3 * k + 1, 3, k, 1);
                lemma_fundamental_div_mod_converse(3 * k + 2, 3, k, 2);
                assert(0 <= 3 * k && 3 * k + 2 < np) by (nonlinear_arith)
                    requires
                        0 <= k < n,
                        np == 3 * n,
                ;
                if escapes_now(snap[k], ESCAPE_THRESHOLD as int) {
                    assert(tinted(pixels@, k, i));
                    assert(field.samples@[k].stop_step() == i);
                } else {
                    assert(!snap[k].is_running());
                    assert(field.samples@[k] == snap[k]);
                    assert(tinted(snap_px, k, snap[k].stop_step()));
                    assert(pixels@[3 * k] == snap_px[3 * k] && pixels@[3 * k + 1] == snap_px[3 * k
                        + 1] && pixels@[3 * k + 2] == snap_px[3 * k + 2]);
                }
            }
            assert forall|k: int|
                0 <= k < n && (#[trigger] field.samples@[k]).is_running() implies pixels@[3 * k]
                == 0u8 && pixels@[3 * k + 1] == 0u8 && pixels@[3 * k + 2] == 0u8 by {
                lemma_div_multiples_vanish(k, 3);
                lemma_fundamental_div_mod_converse(3 * k + 1, 3, k, 1);
                lemma_fundamental_div_mod_converse(3 * k + 2, 3, k, 2);
                assert(0 <= 3 * k && 3 * k + 2 < np) by (nonlinear_arith)
                    requires
                        0 <= k < n,
                        np == 3 * n,
                ;
                assert(snap[k].is_running());
                assert(!escapes_now(snap[k], ESCAPE_THRESHOLD as int));
                assert(pixels@[3 * k] == snap_px[3 * k] && pixels@[3 * k + 1] == snap_px[3 * k + 1]
                    && pixels@[3 * k + 2] == snap_px[3 * k + 2]);
            }
        }
        i = i + 1;
    }
    proof {
        let t = ESCAPE_THRESHOLD as int;
        assert forall|k: int| 0 <= k < n implies #[trigger] field.samples@[k] == run_spec(
            seeded_at(frame, k),
            t,
            iters as nat,
            0,
        ) by {
            assert(run_spec(field.samples@[k], t, (iters32 - i) as nat, i) == run_spec(
                seeded_at(frame, k),
                t,
                iters as nat,
                0,
            ));
            assert((iters32 - i) as nat == 0);
            assert(run_spec(field.samples@[k], t, 0, i) == field.samples@[k]);
        }
        assert forall|j2: int| 0 <= j2 < np implies pixels@[j2] == escape_pixels(
            frame,
            t,
            iters as nat,
        )[j2] by {
            vstd::arithmetic::div_mod::lemma_fundamental_div_mod(j2, 3);
            let k = j2 / 3;
            assert(0 <= k < n) by (nonlinear_arith)
                requires
                    0 <= j2 < np,
                    np == 3 * n,
                    j2 == 3 * k + j2 % 3,
                    0 <= j2 % 3 < 3,
            ;
            assert(field.samples@[k] == run_spec(seeded_at(frame, k), t, iters as nat, 0));
        }
        assert(pixels@ =~= escape_pixels(frame, t, iters as nat));
    }
    Ok(pixels)
}

/// The seeds selected for density accumulation, re-armed at the origin:
/// the whole field classified for the full budget, then re-seeded plain or
/// inverted.
pub open spec fn prepped_samples(frame: Frame, t: int, iters: nat, inverted: bool) -> Seq<
    PlaneSample,
> {
    Seq::new(
        (frame.width * frame.height) as nat,
        |k: int| reseed_spec(run_spec(seeded_at(frame, k), t, iters, 0), inverted),
    )
}

/// All-zero counters.
pub open spec fn zero_cells(len: nat) -> Seq<int> {
    Seq::new(len, |i: int| 0int)
}

/// The private histograms of a density run, one per chunk, each accumulated
/// for the full budget over its own samples.
pub open spec fn density_chunk_hists(
    frame: Frame,
    t: int,
    iters: nat,
    inverted: bool,
    threads: int,
) -> Seq<Seq<int>> {
    let count = (frame.width * frame.height) as int;
    let prep = prepped_samples(frame, t, iters, inverted);
    let chunks = chunks_of(count, threads);
    Seq::new(
        chunks.len(),
        |i: int|
            accum_run(
                prep.subrange(chunks[i].0, chunks[i].1),
                zero_cells(count as nat),
                frame,
                t,
                iters,
                0,
            ),
    )
}

/// The merged visit histogram of a density run: the per-chunk histograms
/// summed element-wise.
pub open spec fn density_hist(
    frame: Frame,
    t: int,
    iters: nat,
    inverted: bool,
    threads: int,
) -> Seq<int> {
    sum_all(
        density_chunk_hists(frame, t, iters, inverted, threads),
        (frame.width * frame.height) as nat,
    )
}

/// The density pipeline's output: one grayscale pixel per cell of the merged
/// histogram, at the logarithmic intensity of its normalized counter.
pub open spec fn density_output(
    pixels: Seq<u8>,
    width: usize,
    height: usize,
    iters: usize,
    inverted: bool,
    threads: usize,
) -> bool {
    let hist = density_hist(
        default_frame(width, height),
        ESCAPE_THRESHOLD as int,
        iters as nat,
        inverted,
        threads as int,
    );
    &&& pixels.len() == 3 * (width * height)
    &&& forall|k: int|
        0 <= k < width * height ==> {
            let v = intensity_spec(normalize_spec(hist)[k]);
            &&& #[trigger] pixels[3 * k] == v
            &&& pixels[3 * k + 1] == v
            &&& pixels[3 * k + 2] == v
        }
}

/// Render the trajectory-density map: classify every seed for the full
/// budget, re-seed the selected ones (escaping seeds, or the others in the
/// inverted variant), accumulate per-chunk visit histograms, merge them, and
/// shade the merged counts logarithmically.  Rejected configurations fail
/// fast, before any computation.
#[verifier::rlimit(100)]
pub fn buddah_brot(width: usize, height: usize, iters: usize, inverted: bool, threads: usize) -> (r:
    Result<Vec<u8>, ConfigError>)
    ensures
        r matches Err(e) ==> Some(e) == density_config_err(width, height, iters, threads),
        r matches Ok(pixels) ==> density_config_err(width, height, iters, threads) is None
            && density_output(pixels@, width, height, iters, inverted, threads),
{
    if threads == 0 {
        return Err(ConfigError::ZeroThreads);
    }
    let frame: Frame = match checked_frame(width, height, iters) {
        Ok(f) => f,
        Err(e) => {
            return Err(e);
        },
    };
    let iters32: u32 = iters as u32;
    let t: i64 = ESCAPE_THRESHOLD;
    let ghost ti = ESCAPE_THRESHOLD as int;
    let field: Field = seed_field(&frame);
    let mut samples: Vec<PlaneSample> = field.samples;
    let count: usize = samples.len();
    let bounds: Vec<(usize, usize)> = chunk_bounds(count, threads);
    let nb: usize = bounds.len();
    let ghost chunks = chunks_of(count as int, threads as int);

    // Classification pre-pass, chunk by chunk.
    let mut ci: usize = 0;
    while ci < nb
        invariant
            samples@.len() == count,
            all_wf(samples@),
            0 <= t <= THRESHOLD_LIMIT,
            ti == t as int,
            iters32 < u32::MAX,
            iters32 == iters,
            nb == bounds@.len(),
            forall|i: int| 0 <= i < nb ==> #[trigger] bounds@[i].0 < bounds@[i].1 <= count,
            forall|i: int|
                0 <= i < nb ==> #[trigger] bounds@[i].0 == if i == 0 {
                    0int
                } else {
                    bounds@[i - 1].1 as int
                },
            nb > 0 ==> bounds@[nb - 1].1 == count,
            ci <= nb,
            forall|k: int|
                0 <= k < (if ci == 0 {
                    0int
                } else {
                    bounds@[ci - 1].1 as int
                }) ==> #[trigger] samples@[k] == run_spec(
                    seeded_samples(frame)[k],
                    ti,
                    iters as nat,
                    0,
                ),
            forall|k: int|
                (if ci == 0 {
                    0int
                } else {
                    bounds@[ci - 1].1 as int
                }) <= k < count ==> #[trigger] samples@[k] == seeded_samples(frame)[k],
        decreases nb - ci,
    {
        let (s, e): (usize, usize) = bounds[ci];
        let ghost before = samples@;
        proof {
            let b_prev: int = if ci == 0 {
                0int
            } else {
                bounds@[ci as int - 1].1 as int
            };
            assert(s as int == b_prev);
        }
        advance_range(&mut samples, s, e, t, iters32);
        proof {
            assert forall|k: int| 0 <= k < e as int implies #[trigger] samples@[k] == run_spec(
                seeded_samples(frame)[k],
                ti,
                iters as nat,
                0,
            ) by {
                if k < s as int {
                    assert(samples@[k] == before[k]);
                } else {
                    assert(samples@[k] == run_spec(before[k], t as int, iters32 as nat, 0));
                    assert(before[k] == seeded_samples(frame)[k]);
                }
            }
            assert forall|k: int| e as int <= k < count implies #[trigger] samples@[k]
                == seeded_samples(frame)[k] by {
                assert(samples@[k] == before[k]);
            }
        }
        ci = ci + 1;
    }
    proof {
        if count > 0 {
            assert(nb > 0);
        }
        assert forall|k: int| 0 <= k < count implies #[trigger] samples@[k] == run_spec(
            seeded_at(frame, k),
            ti,
            iters as nat,
            0,
        ) by {
            assert(samples@[k] == run_spec(seeded_samples(frame)[k], ti, iters as nat, 0));
            assert(seeded_samples(frame)[k] == seeded_at(frame, k));
        }
    }

    // Re-seed the selected seeds.
    reseed_for_density(&mut samples, inverted);
    let ghost prep = prepped_samples(frame, ti, iters as nat, inverted);
    proof {
        assert forall|k: int| 0 <= k < count implies #[trigger] samples@[k] == prep[k] by {}
        assert(samples@ =~= prep);
    }

    // Per-chunk accumulation into private histograms.
    let ghost spec_hists = density_chunk_hists(frame, ti, iters as nat, inverted, threads as int);
    proof {
        assert(count == (frame.width as int) * (frame.height as int));
        assert(spec_hists =~= Seq::new(
            chunks.len(),
            |i: int|
                accum_run(
                    prep.subrange(chunks[i].0, chunks[i].1),
                    zero_cells(count as nat),
                    frame,
                    ti,
                    iters as nat,
                    0,
                ),
        ));
    }
    let mut hists: Vec<VisitHistogram> = Vec::new();
    let mut ci2: usize = 0;
    proof {
        assert((width as int) * (height as int) <= 0x10000000000) by (nonlinear_arith)
            requires
                width <= 0x100000,
                height <= 0x100000,
        ;
        assert(count == (width as int) * (height as int));
    }
    while ci2 < nb
        invariant
            samples@.len() == count,
            all_wf(samples@),
            frame.wf(),
            frame.width * frame.height == count,
            0 <= t <= THRESHOLD_LIMIT,
            t == ESCAPE_THRESHOLD,
            ti == ESCAPE_THRESHOLD as int,
            iters32 < u32::MAX,
            iters32 == iters,
            iters <= MAX_ITERS,
            count <= 0x10000000000,
            nb == bounds@.len(),
            bounds@.map_values(|p: (usize, usize)| (p.0 as int, p.1 as int)) == chunks,
            chunks == chunks_of(count as int, threads as int),
            prep == prepped_samples(frame, ti, iters as nat, inverted),
            prep.len() == count,
            forall|i: int| 0 <= i < nb ==> #[trigger] bounds@[i].0 < bounds@[i].1 <= count,
            spec_hists == Seq::new(
                chunks.len(),
                |i: int|
                    accum_run(
                        prep.subrange(chunks[i].0, chunks[i].1),
                        zero_cells(count as nat),
                        frame,
                        ti,
                        iters as nat,
                        0,
                    ),
            ),
            ci2 <= nb,
            hists@.len() == ci2,
            forall|i: int|
                0 <= i < ci2 ==> {
                    &&& (#[trigger] hists@[i]).wf()
                    &&& hists@[i].width == frame.width
                    &&& hists@[i].height == frame.height
                    &&& hists@[i].cells() == spec_hists[i]
                    &&& hists@[i].cells().len() == count
                    &&& forall|c: int|
                        0 <= c < count ==> #[trigger] hists@[i].cells()[c] <= (iters as int) * (
                        bounds@[i].1 - bounds@[i].0)
                },
            forall|k: int|
                0 <= k < (if ci2 == 0 {
                    0int
                } else {
                    bounds@[ci2 - 1].1 as int
                }) ==> #[trigger] samples@[k] == run_spec(prep[k], ti, iters as nat, 0),
            forall|i: int|
                0 <= i < nb ==> #[trigger] bounds@[i].0 == if i == 0 {
                    0int
                } else {
                    bounds@[i - 1].1 as int
                },
            forall|k: int|
                (if ci2 == 0 {
                    0int
                } else {
                    bounds@[ci2 - 1].1 as int
                }) <= k < count ==> #[trigger] samples@[k] == prep[k],
        decreases nb - ci2,
    {
        let (s, e): (usize, usize) = bounds[ci2];
        let mut hh: VisitHistogram = VisitHistogram::new(frame.width, frame.height);
        let ghost before = samples@;
        proof {
            assert(hh.cells() =~= zero_cells(count as nat));
            assert forall|c: int| 0 <= c < hh.cells().len() implies #[trigger] hh.cells()[c] + (
            iters32 as int) * (e - s) <= u64::MAX by {
                assert((iters32 as int) * (e as int - s as int) <= (iters as int) * (count as int))
                    by (nonlinear_arith)
                    requires
                        iters32 == iters,
                        0 <= iters <= 0x100000,
                        0 <= e as int - s as int <= count,
                        count <= 0x10000000000,
                ;
                assert((iters as int) * (count as int) <= 0x100000 * 0x10000000000)
                    by (nonlinear_arith)
                    requires
                        0 <= iters <= 0x100000,
                        0 <= count <= 0x10000000000,
                ;
            }
            let b_prev: int = if ci2 == 0 {
                0int
            } else {
                bounds@[ci2 as int - 1].1 as int
            };
            assert(s as int == b_prev);
            assert forall|jx: int|
                0 <= jx < e as int - s as int implies before.subrange(s as int, e as int)[jx]
                == prep.subrange(s as int, e as int)[jx] by {
                assert(before[s + jx] == prep[s + jx]);
            }
            assert(before.subrange(s as int, e as int) =~= prep.subrange(s as int, e as int));
        }
        accumulate_range(&mut samples, s, e, &frame, t, iters32, &mut hh);
        proof {
            assert(chunks[ci2 as int] == (s as int, e as int));
            assert(hh.cells() == spec_hists[ci2 as int]);
            assert forall|c: int| 0 <= c < count implies #[trigger] hh.cells()[c] <= (iters as int)
                * (e as int - s as int) by {
                assert(hh.cells()[c] <= zero_cells(count as nat)[c] + (iters32 as int) * (e as int
                    - s as int));
            }
            assert forall|k: int| 0 <= k < e as int implies #[trigger] samples@[k] == run_spec(
                prep[k],
                ti,
                iters as nat,
                0,
            ) by {
                if k < s as int {
                    assert(samples@[k] == before[k]);
                } else {
                    assert(samples@[k] == run_spec(before[k], t as int, iters32 as nat, 0));
                    assert(before[k] == prep[k]);
                }
            }
            assert forall|k: int| e as int <= k < count implies #[trigger] samples@[k] == prep[k]
            by {
                assert(samples@[k] == before[k]);
            }
        }
        let ghost prev_hists = hists@;
        hists.push(hh);
        proof {
            assert(forall|i: int| 0 <= i < prev_hists.len() ==> hists@[i] == prev_hists[i]);
            assert(hists@[ci2 as int] == hh);
        }
        ci2 = ci2 + 1;
    }

    // Merge the private histograms, element-wise, in chunk order.
    let mut total: VisitHistogram = VisitHistogram::new(frame.width, frame.height);
    proof {
        assert(total.cells() =~= zero_cells(count as nat));
        assert(cell_total(spec_hists.take(0), 0) == 0);
    }
    let mut mi: usize = 0;
    while mi < nb
        invariant
            nb == hists@.len(),
            frame.wf(),
            frame.width * frame.height == count,
            count <= 0x10000000000,
            iters <= MAX_ITERS,
            nb == bounds@.len(),
            forall|i: int| 0 <= i < nb ==> #[trigger] bounds@[i].0 < bounds@[i].1 <= count,
            forall|i: int|
                0 <= i < nb ==> #[trigger] bounds@[i].0 == if i == 0 {
                    0int
                } else {
                    bounds@[i - 1].1 as int
                },
            nb > 0 ==> bounds@[nb - 1].1 == count,
            forall|i: int|
                0 <= i < nb ==> {
                    &&& (#[trigger] hists@[i]).wf()
                    &&& hists@[i].width == frame.width
                    &&& hists@[i].height == frame.height
                    &&& hists@[i].cells() == spec_hists[i]
                    &&& hists@[i].cells().len() == count
                    &&& forall|c: int|
                        0 <= c < count ==> #[trigger] hists@[i].cells()[c] <= (iters as int) * (
                        bounds@[i].1 - bounds@[i].0)
                },
            mi <= nb,
            spec_hists.len() == nb,
            total.wf(),
            total.width == frame.width,
            total.height == frame.height,
            total.cells().len() == count,
            forall|c: int|
                0 <= c < count ==> #[trigger] total.cells()[c] == cell_total(
                    spec_hists.take(mi as int),
                    c,
                ),
            forall|c: int|
                0 <= c < count ==> #[trigger] total.cells()[c] <= (iters as int) * (if mi == 0 {
                    0int
                } else {
                    bounds@[mi - 1].1 as int
                }),
        decreases nb - mi,
    {
        let ghost prev_total = total.cells();
        proof {
            let b_prev: int = if mi == 0 {
                0int
            } else {
                bounds@[mi as int - 1].1 as int
            };
            assert forall|c: int| 0 <= c < count implies #[trigger] total.cells()[c]
                + hists@[mi as int].cells()[c] <= u64::MAX by {
                assert(hists@[mi as int].cells()[c] <= (iters as int) * (bounds@[mi as int].1
                    - bounds@[mi as int].0));
                assert((iters as int) * b_prev + (iters as int) * (bounds@[mi as int].1
                    - bounds@[mi as int].0) == (iters as int) * (bounds@[mi as int].1 as int))
                    by (nonlinear_arith)
                    requires
                        b_prev == bounds@[mi as int].0 as int,
                ;
                assert((iters as int) * (bounds@[mi as int].1 as int) <= (iters as int) * (
                count as int)) by (nonlinear_arith)
                    requires
                        0 <= iters,
                        bounds@[mi as int].1 <= count,
                ;
                assert((iters as int) * (count as int) <= 0x100000 * 0x10000000000)
                    by (nonlinear_arith)
                    requires
                        0 <= iters <= 0x100000,
                        0 <= count <= 0x10000000000,
                ;
            }
        }
        let href: &VisitHistogram = &hists[mi];
        total.add_from(href);
        proof {
            let b_prev: int = if mi == 0 {
                0int
            } else {
                bounds@[mi as int - 1].1 as int
            };
            assert(spec_hists.take(mi + 1).drop_last() =~= spec_hists.take(mi as int));
            assert forall|c: int| 0 <= c < count implies #[trigger] total.cells()[c] == cell_total(
                spec_hists.take(mi + 1),
                c,
            ) by {
                lemma_cell_total_push(spec_hists.take(mi as int), spec_hists[mi as int], c);
                assert(spec_hists.take(mi as int).push(spec_hists[mi as int]) =~= spec_hists.take(
                    mi + 1,
                ));
                assert(total.cells()[c] == prev_total[c] + hists@[mi as int].cells()[c]);
            }
            assert forall|c: int| 0 <= c < count implies #[trigger] total.cells()[c] <= (
            iters as int) * (bounds@[mi as int].1 as int) by {
                assert((iters as int) * b_prev + (iters as int) * (bounds@[mi as int].1
                    - bounds@[mi as int].0) == (iters as int) * (bounds@[mi as int].1 as int))
                    by (nonlinear_arith)
                    requires
                        b_prev == bounds@[mi as int].0 as int,
                ;
            }
        }
        mi = mi + 1;
    }
    proof {
        assert(spec_hists.take(nb as int) =~= spec_hists);
        assert forall|k: int| 0 <= k < spec_hists.len() implies #[trigger] spec_hists[k].len()
            == count by {
            assert(hists@[k].cells() == spec_hists[k]);
            assert(hists@[k].cells().len() == count);
        }
        lemma_sum_all_cells(spec_hists, count as nat);
        assert(density_hist(frame, ti, iters as nat, inverted, threads as int) == sum_all(
            spec_hists,
            count as nat,
        ));
        assert(total.cells() =~= density_hist(frame, ti, iters as nat, inverted, threads as int));
    }

    // Shade the merged counts.
    let pixels: Vec<u8> = shade_density(&total.counts);
    proof {
        assert(total.counts@.map_values(|c: u64| c as int) == total.cells());
        let hist = density_hist(frame, ti, iters as nat, inverted, threads as int);
        assert(total.cells() == hist);
        assert(pixels@.len() == 3 * (width * height));
        assert forall|k: int| 0 <= k < width * height implies {
            let v = intensity_spec(normalize_spec(hist)[k]);
            &&& #[trigger] pixels@[3 * k] == v
            &&& pixels@[3 * k + 1] == v
            &&& pixels@[3 * k + 2] == v
        } by {
            assert(0 <= k < total.counts@.len());
            assert(pixels@[3 * k] == intensity_spec(
                normalize_spec(total.counts@.map_values(|c: u64| c as int))[k],
            ));
        }
        assert(density_output(pixels@, width, height, iters, inverted, threads));
    }
    Ok(pixels)
}

} // verus!
