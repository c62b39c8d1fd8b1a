use budderbrot::complex::Cpx;
use budderbrot::fixed::FIX_ONE;
use budderbrot::mapper::{forward, inverse, Frame};

fn unit_frame() -> Frame {
    Frame { center: Cpx { re: 0, im: 0 }, scale: FIX_ONE, width: 4, height: 4 }
}

#[test]
fn forward_spans_the_plane_window() {
    let frame = unit_frame();
    // One plane unit per pixel, centered at the origin: column x maps to
    // real part x - 2, row y to imaginary part y - 2.
    for y in 0..4usize {
        for x in 0..4usize {
            let c = forward(&frame, x, y);
            assert_eq!(c.re, (x as i64 - 2) * FIX_ONE);
            assert_eq!(c.im, (y as i64 - 2) * FIX_ONE);
        }
    }
}

#[test]
fn round_trip_recovers_every_pixel() {
    let frame = Frame { center: Cpx { re: -8388608, im: 0 }, scale: 62914, width: 800, height: 600 };
    for y in (0..600usize).step_by(97) {
        for x in (0..800usize).step_by(89) {
            let c = forward(&frame, x, y);
            assert_eq!(inverse(&frame, c), Some((x, y)));
        }
    }
}

#[test]
fn round_trip_with_odd_dimensions_and_odd_scale() {
    let frame = Frame { center: Cpx { re: 12345, im: -9876 }, scale: 33333, width: 7, height: 5 };
    for y in 0..5usize {
        for x in 0..7usize {
            let c = forward(&frame, x, y);
            assert_eq!(inverse(&frame, c), Some((x, y)));
        }
    }
}

#[test]
fn out_of_frame_projections_are_discarded() {
    let frame = unit_frame();
    // Three plane units right of the window's edge.
    let far = Cpx { re: 5 * FIX_ONE, im: 0 };
    assert_eq!(inverse(&frame, far), None);
    let below = Cpx { re: 0, im: -5 * FIX_ONE };
    assert_eq!(inverse(&frame, below), None);
}
