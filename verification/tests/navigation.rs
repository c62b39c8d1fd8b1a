use budderbrot::complex::Cpx;
use budderbrot::fixed::FIX_ONE;
use budderbrot::mapper::Frame;
use budderbrot::sample::PlaneSample;
use budderbrot::viewport::{Controller, InputEvent};

fn start_frame() -> Frame {
    Frame { center: Cpx { re: -8388608, im: 0 }, scale: 62914, width: 800, height: 600 }
}

#[test]
fn zoom_round_trip_restores_scale_within_tolerance() {
    let mut ctl = Controller::new(start_frame());
    let s0 = ctl.vp.frame.scale;
    assert!(ctl.zoom(4, 5));
    assert!(ctl.zoom(5, 4));
    let s1 = ctl.vp.frame.scale;
    // Truncation loses at most one raw count (about 6e-8 plane units).
    assert!((s0 - s1).abs() <= 1);
}

#[test]
fn zoom_truncates_the_scale_exactly() {
    let mut ctl = Controller::new(start_frame());
    assert!(ctl.zoom(4, 5));
    // 62914 * 4 / 5 = 50331.2, truncated.
    assert_eq!(ctl.vp.frame.scale, 50331);
    assert!(ctl.zoom(6, 5));
    assert_eq!(ctl.vp.frame.scale, 60397);
}

#[test]
fn resize_rederives_the_grid_and_keeps_the_geometry() {
    let mut ctl = Controller::new(start_frame());
    assert!(ctl.pan(10, 0));
    let c = ctl.vp.frame.center;
    assert!(ctl.resize(400, 300));
    assert_eq!(ctl.vp.frame.width, 400);
    assert_eq!(ctl.vp.frame.height, 300);
    assert_eq!(ctl.vp.frame.center, c);
    assert_eq!(ctl.vp.tick, 0);
    assert_eq!(ctl.field.samples.len(), 400 * 300);
    // Dimensions that would leave the representable plane are rejected.
    assert!(!ctl.resize(1_000_000, 1_000_000));
    assert_eq!(ctl.vp.frame.width, 400);
}

#[test]
fn commands_reset_the_tick_and_reseed() {
    let mut ctl = Controller::new(start_frame());
    let mut pixels: Vec<u8> = vec![0; 3 * 800 * 600];
    ctl.step_frame(&mut pixels, 16 * FIX_ONE);
    ctl.step_frame(&mut pixels, 16 * FIX_ONE);
    assert_eq!(ctl.vp.tick, 2);
    assert!(ctl.zoom(4, 5));
    assert_eq!(ctl.vp.tick, 0);
    // The field was re-seeded: every sample is running at the origin again.
    assert!(ctl.field.samples.iter().all(|s| matches!(
        s,
        PlaneSample::Running { z: Cpx { re: 0, im: 0 }, .. }
    )));
}

#[test]
fn pan_shifts_the_center_by_pixels() {
    let mut ctl = Controller::new(start_frame());
    let c0 = ctl.vp.frame.center;
    let s = ctl.vp.frame.scale;
    assert!(ctl.pan(10, -4));
    assert_eq!(ctl.vp.frame.center.re, c0.re + 10 * s);
    assert_eq!(ctl.vp.frame.center.im, c0.im - 4 * s);
}

#[test]
fn reset_restores_the_initial_geometry() {
    let mut ctl = Controller::new(start_frame());
    assert!(ctl.zoom(6, 5));
    assert!(ctl.pan(50, 50));
    ctl.handle_event(InputEvent::KeyReset);
    assert_eq!(ctl.vp.frame, start_frame());
    assert_eq!(ctl.vp.tick, 0);
}

#[test]
fn pointer_press_recenters_at_the_pressed_pixel() {
    let mut ctl = Controller::new(start_frame());
    let s = ctl.vp.frame.scale;
    let c0 = ctl.vp.frame.center;
    ctl.handle_event(InputEvent::PointerPress { x: 400, y: 300 });
    // The center of the frame maps to itself.
    assert_eq!(ctl.vp.frame.center, c0);
    ctl.handle_event(InputEvent::PointerPress { x: 500, y: 300 });
    // One hundred pixels right of center.
    assert_eq!(ctl.vp.frame.center.re, c0.re + 100 * s);
    assert_eq!(ctl.vp.frame.center.im, c0.im);
}

#[test]
fn rejected_command_changes_nothing() {
    let mut ctl = Controller::new(start_frame());
    let frame0 = ctl.vp.frame;
    // Zooming out this far would leave the representable plane.
    for _ in 0..200 {
        ctl.zoom(6, 5);
    }
    let frame_mid = ctl.vp.frame;
    assert!(!ctl.zoom(6, 5));
    assert_eq!(ctl.vp.frame, frame_mid);
    assert_ne!(frame0.scale, frame_mid.scale);
}

#[test]
fn zoom_keys_scale_by_exact_ratios() {
    let mut ctl = Controller::new(start_frame());
    ctl.handle_event(InputEvent::KeyZoomIn);
    // 62914 * 4 / 5 = 50331.2, truncated; tick reset, center kept.
    assert_eq!(ctl.vp.frame.scale, 50331);
    assert_eq!(ctl.vp.frame.center, start_frame().center);
    assert_eq!(ctl.vp.tick, 0);
    ctl.handle_event(InputEvent::KeyZoomOut);
    // 50331 * 6 / 5 = 60397.2, truncated.
    assert_eq!(ctl.vp.frame.scale, 60397);
}

#[test]
fn buffer_of_the_wrong_size_is_rejected() {
    let mut ctl = Controller::new(start_frame());
    let mut short: Vec<u8> = vec![0; 10];
    assert!(!ctl.try_step_frame(&mut short, 16 * FIX_ONE));
    assert_eq!(ctl.vp.tick, 0);
    let mut right: Vec<u8> = vec![0; 3 * 800 * 600];
    assert!(ctl.try_step_frame(&mut right, 16 * FIX_ONE));
    assert_eq!(ctl.vp.tick, 1);
}

#[test]
fn directional_keys_pan_a_tenth_of_the_frame() {
    let mut ctl = Controller::new(start_frame());
    let c0 = ctl.vp.frame.center;
    let s = ctl.vp.frame.scale;
    ctl.handle_event(InputEvent::KeyPanRight);
    assert_eq!(ctl.vp.frame.center.re, c0.re + 80 * s);
    ctl.handle_event(InputEvent::KeyPanDown);
    assert_eq!(ctl.vp.frame.center.im, c0.im + 60 * s);
}
