use budderbrot::complex::{norm_sqr, sqr_add, Cpx};
use budderbrot::engine::{advance_range, reseed_for_density, seed_field};
use budderbrot::fixed::FIX_ONE;
use budderbrot::mapper::Frame;
use budderbrot::sample::{step_sample, PlaneSample};

fn fresh(re: i64, im: i64) -> PlaneSample {
    PlaneSample::Running { c: Cpx { re, im }, z: Cpx { re: 0, im: 0 } }
}

#[test]
fn complex_arithmetic_is_exact_on_integers() {
    let z = Cpx { re: 2 * FIX_ONE, im: -FIX_ONE };
    let c = Cpx { re: FIX_ONE, im: FIX_ONE };
    // (2 - i)^2 + (1 + i) = (3 - 4i) + (1 + i) = 4 - 3i
    let r = sqr_add(z, c);
    assert_eq!(r, Cpx { re: 4 * FIX_ONE, im: -3 * FIX_ONE });
    // |2 - i|^2 = 5
    assert_eq!(norm_sqr(z), 5 * FIX_ONE);
}

#[test]
fn origin_seed_never_escapes() {
    // c = 0 is a fixed point: z stays 0 through every step, so the sample is
    // never stopped by escape, only ever by an exhausted budget.
    let mut s = fresh(0, 0);
    for idx in 0..200u32 {
        s = step_sample(s, 4 * FIX_ONE, idx);
        assert_eq!(s, fresh(0, 0));
    }
}

#[test]
fn seed_beyond_threshold_stops_at_the_first_step() {
    // The first advance moves the iterate from the origin to the seed, and
    // |3|^2 = 9 already exceeds a threshold of 4.
    let mut s = fresh(3 * FIX_ONE, 0);
    s = step_sample(s, 4 * FIX_ONE, 0);
    assert_eq!(s, PlaneSample::Stopped { c: Cpx { re: 3 * FIX_ONE, im: 0 }, step: 0 });
    // Stopped is terminal.
    s = step_sample(s, 4 * FIX_ONE, 1);
    assert_eq!(s, PlaneSample::Stopped { c: Cpx { re: 3 * FIX_ONE, im: 0 }, step: 0 });
}

#[test]
fn seed_two_escapes_at_step_one() {
    // c = 2 + 0i: the advances produce 2 (squared norm 4, not over the
    // threshold) and then 6, observed past the threshold at step 1.
    let mut s = fresh(2 * FIX_ONE, 0);
    s = step_sample(s, 4 * FIX_ONE, 0);
    assert!(matches!(s, PlaneSample::Running { .. }));
    s = step_sample(s, 4 * FIX_ONE, 1);
    assert_eq!(s, PlaneSample::Stopped { c: Cpx { re: 2 * FIX_ONE, im: 0 }, step: 1 });
}

#[test]
fn real_seed_past_two_escapes_within_sixteen_steps() {
    // c = 2.5 + 0i is past two plane units but under the escape radius of a
    // threshold of 128, so it is not stopped outright; its iterate at least
    // doubles each step until the escape check must fire.
    let c = Cpx { re: 2 * FIX_ONE + FIX_ONE / 2, im: 0 };
    let mut s = PlaneSample::Running { c, z: Cpx { re: 0, im: 0 } };
    for idx in 0..16u32 {
        s = step_sample(s, 128 * FIX_ONE, idx);
    }
    assert!(matches!(s, PlaneSample::Stopped { .. }));
}

#[test]
fn four_by_four_field_classification() {
    // A 4x4 field over [-2,2] x [-2,2] (one plane unit per pixel, centered
    // at the origin), budget 50, threshold 4.  The seeds whose orbits stay
    // bounded are exactly -2, -1, 0, -i and i.
    let frame = Frame { center: Cpx { re: 0, im: 0 }, scale: FIX_ONE, width: 4, height: 4 };
    let field = seed_field(&frame);
    let mut samples = field.samples;
    advance_range(&mut samples, 0, 16, 4 * FIX_ONE, 50);
    let running: Vec<usize> =
        (0..16).filter(|&k| matches!(samples[k], PlaneSample::Running { .. })).collect();
    // (x, y) with c = (x - 2) + (y - 2)i still running:
    // (2,1) = -i, (0,2) = -2, (1,2) = -1, (2,2) = 0, (2,3) = i.
    assert_eq!(running, vec![6, 8, 9, 10, 14]);
}

#[test]
fn reseed_selects_escaping_seeds_in_plain_mode() {
    let c = Cpx { re: FIX_ONE, im: 0 };
    let stopped = PlaneSample::Stopped { c, step: 7 };
    let running = PlaneSample::Running { c, z: Cpx { re: 5, im: 5 } };
    let mut samples = vec![stopped, running];
    reseed_for_density(&mut samples, false);
    // The stopped (escaped) seed is re-armed at the origin; the running
    // (bounded) seed is retired.
    assert_eq!(samples[0], PlaneSample::Running { c, z: Cpx { re: 0, im: 0 } });
    assert!(matches!(samples[1], PlaneSample::Stopped { .. }));
}

#[test]
fn reseed_selects_bounded_seeds_in_inverted_mode() {
    let c = Cpx { re: FIX_ONE, im: 0 };
    let stopped = PlaneSample::Stopped { c, step: 7 };
    let running = PlaneSample::Running { c, z: Cpx { re: 5, im: 5 } };
    let mut samples = vec![stopped, running];
    reseed_for_density(&mut samples, true);
    assert_eq!(samples[0], stopped);
    assert_eq!(samples[1], PlaneSample::Running { c, z: Cpx { re: 0, im: 0 } });
}
