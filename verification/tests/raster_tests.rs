use progred::raster::{longer_edge, refined_depth, resolutions, PixelSize};

fn pixels(width: u32, height: u32) -> PixelSize {
    PixelSize { width, height }
}

#[test]
fn doubling_first_resolution_skips_only_the_coarsest_level() {
    for (width, height) in [(333, 751), (257, 129), (128, 64), (1, 1)] {
        let size = pixels(width, height);
        for first_max_edge in [128, 256] {
            let sizes = resolutions(size, first_max_edge);
            let skip = usize::from(sizes.len() > 1);
            assert_eq!(resolutions(size, first_max_edge * 2), sizes[skip..]);
        }
    }
}

#[test]
fn refinement_reaches_native_pixels() {
    for (width, height) in [(333, 751), (1024, 1), (1, 1)] {
        let size = pixels(width, height);
        let sizes = resolutions(size, 128);
        assert_eq!(sizes.last(), Some(&size));
        assert!(longer_edge(sizes[0]) <= 128);
        for pair in sizes.windows(2) {
            assert!(pair[1].width >= pair[0].width);
            assert!(pair[1].height >= pair[0].height);
            assert_ne!(pair[0], pair[1]);
        }
    }
    assert_eq!(
        resolutions(pixels(333, 751), 128),
        vec![pixels(42, 94), pixels(84, 188), pixels(167, 376), pixels(333, 751)]
    );
    assert_eq!(resolutions(pixels(1, 1), 128), vec![pixels(1, 1)]);
}

#[test]
fn a_refined_depth_must_fit_and_be_positive() {
    assert_eq!(refined_depth(64, 4), Some(256));
    assert_eq!(refined_depth(64, 0), None);
    assert_eq!(refined_depth(64, u32::MAX), None);
    assert_eq!(refined_depth(1, 1), Some(1));
}
