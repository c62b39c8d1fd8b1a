use budderbrot::colorize::{escape_color, intensity, log2_floor_u64, max_of, normalize};
use budderbrot::fixed::FIX_ONE;
use budderbrot::histogram::VisitHistogram;

#[test]
fn escape_tint_ramps() {
    assert_eq!(escape_color(0), (0, 0, 255));
    assert_eq!(escape_color(1), (10, 15, 245));
    // 26 * 10 = 260 wraps to 4; 26 * 15 = 390 wraps to 134.
    assert_eq!(escape_color(26), (4, 134, 251));
}

#[test]
fn log2_floor_values() {
    assert_eq!(log2_floor_u64(1), 0);
    assert_eq!(log2_floor_u64(2), 1);
    assert_eq!(log2_floor_u64(3), 1);
    assert_eq!(log2_floor_u64(1024), 10);
    assert_eq!(log2_floor_u64(u64::MAX), 63);
}

#[test]
fn intensity_falls_by_halvings() {
    // Zero counters clamp to black; full scale is full intensity; each
    // halving under the maximum loses 32 steps, to black at eight halvings.
    assert_eq!(intensity(0), 0);
    assert_eq!(intensity(FIX_ONE as u64), 255);
    assert_eq!(intensity((FIX_ONE / 2) as u64), 223);
    assert_eq!(intensity((FIX_ONE / 4) as u64), 191);
    assert_eq!(intensity((FIX_ONE / 128) as u64), 31);
    assert_eq!(intensity((FIX_ONE / 256) as u64), 0);
    assert_eq!(intensity(1), 0);
}

#[test]
fn normalize_scales_against_the_maximum() {
    let counts: Vec<u64> = vec![0, 2, 4];
    let normd = normalize(&counts);
    assert_eq!(normd, vec![0, (FIX_ONE / 2) as u64, FIX_ONE as u64]);
}

#[test]
fn normalize_of_all_zero_is_all_zero() {
    let counts: Vec<u64> = vec![0, 0, 0];
    assert_eq!(normalize(&counts), vec![0, 0, 0]);
}

#[test]
fn normalizing_a_normalized_buffer_is_a_no_op() {
    let counts: Vec<u64> = vec![1, 3, 8, 5];
    let once = normalize(&counts);
    let twice = normalize(&once);
    assert_eq!(once, twice);
    assert_eq!(max_of(&once), FIX_ONE as u64);
}

#[test]
fn histogram_counts_visits_per_pixel() {
    let mut h = VisitHistogram::new(3, 2);
    h.bump(1, 0);
    h.bump(1, 0);
    h.bump(2, 1);
    assert_eq!(h.counts, vec![0, 2, 0, 0, 0, 1]);
    assert_eq!(h.max_count(), 2);
}

#[test]
fn histogram_merge_is_order_independent() {
    let mut a = VisitHistogram::new(2, 2);
    a.bump(0, 0);
    a.bump(1, 1);
    let mut b = VisitHistogram::new(2, 2);
    b.bump(1, 0);
    let mut c = VisitHistogram::new(2, 2);
    c.bump(0, 0);
    c.bump(0, 1);
    c.bump(1, 1);

    let mut left = VisitHistogram::new(2, 2);
    left.add_from(&a);
    left.add_from(&b);
    left.add_from(&c);

    let mut right = VisitHistogram::new(2, 2);
    right.add_from(&c);
    right.add_from(&a);
    right.add_from(&b);

    assert_eq!(left.counts, right.counts);
    assert_eq!(left.counts, vec![2, 1, 1, 2]);
}
