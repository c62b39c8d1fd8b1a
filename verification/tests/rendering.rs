use budderbrot::partition::chunk_bounds;
use budderbrot::pipeline::{buddah_brot, mandel_brot, ConfigError};

#[test]
fn configuration_errors_fail_fast() {
    assert_eq!(mandel_brot(0, 4, 10), Err(ConfigError::ZeroWidth));
    assert_eq!(mandel_brot(4, 0, 10), Err(ConfigError::ZeroHeight));
    assert_eq!(mandel_brot(2_000_000, 4, 10), Err(ConfigError::WidthTooLarge));
    assert_eq!(mandel_brot(4, 2_000_000, 10), Err(ConfigError::HeightTooLarge));
    assert_eq!(mandel_brot(4, 4, 0), Err(ConfigError::ZeroIterations));
    assert_eq!(mandel_brot(4, 4, 2_000_000), Err(ConfigError::IterationsTooLarge));
    assert_eq!(buddah_brot(4, 4, 10, false, 0), Err(ConfigError::ZeroThreads));
    // A one-pixel-wide frame is three plane units per pixel; a million rows
    // of that leaves the representable plane.
    assert_eq!(mandel_brot(1, 1_000_000, 10), Err(ConfigError::FrameOutOfRange));
}

#[test]
fn escape_time_render_has_one_rgb_triple_per_pixel() {
    let pixels = mandel_brot(16, 12, 20).unwrap();
    assert_eq!(pixels.len(), 3 * 16 * 12);
    // The default frame spans [-2, 1] x [-1.125, 1.125].  The top-left seed
    // -2 - 1.125i produces an escaping advance at step 2, the bottom-right
    // seed 0.8125 + 0.9375i at step 3: their pixels carry those tints.
    assert_eq!(&pixels[0..3], &[20, 30, 235]);
    let last = pixels.len() - 3;
    assert_eq!(&pixels[last..], &[30, 45, 225]);
}

#[test]
fn escape_time_render_is_deterministic() {
    let a = mandel_brot(8, 8, 30).unwrap();
    let b = mandel_brot(8, 8, 30).unwrap();
    assert_eq!(a, b);
}

#[test]
fn density_render_is_grayscale_and_sized() {
    let pixels = buddah_brot(8, 8, 12, false, 3).unwrap();
    assert_eq!(pixels.len(), 3 * 8 * 8);
    for px in pixels.chunks(3) {
        assert_eq!(px[0], px[1]);
        assert_eq!(px[1], px[2]);
    }
}

#[test]
fn density_render_does_not_depend_on_worker_count() {
    // Chunking is an ownership strategy, not a semantic one: as long as the
    // chunk layout is the same, the merged histogram is the same; and with
    // different layouts the image may only differ through the reduction,
    // which is order-independent.  One worker and many workers agree here.
    let a = buddah_brot(8, 8, 12, false, 1).unwrap();
    let b = buddah_brot(8, 8, 12, false, 4).unwrap();
    assert_eq!(a, b);
}

#[test]
fn inverted_density_selects_the_other_seeds() {
    let plain = buddah_brot(8, 8, 12, false, 2).unwrap();
    let inverted = buddah_brot(8, 8, 12, true, 2).unwrap();
    assert_eq!(inverted.len(), plain.len());
    assert_ne!(plain, inverted);
}

#[test]
fn chunks_cover_the_samples_contiguously() {
    assert_eq!(chunk_bounds(10, 4), vec![(0, 2), (2, 4), (4, 6), (6, 8), (8, 10)]);
    assert_eq!(chunk_bounds(5, 10), vec![(0, 1), (1, 2), (2, 3), (3, 4), (4, 5)]);
    assert_eq!(chunk_bounds(0, 3), vec![]);
    assert_eq!(chunk_bounds(7, 2), vec![(0, 3), (3, 6), (6, 7)]);
}
