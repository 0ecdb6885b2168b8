use progred::assembly::{base_color, Assembly, Depth, Image, Tile};
use progred::raster::resample;

fn blank_tile(origin_x: usize, origin_y: usize, width: usize, height: usize, stride: usize) -> Tile {
    Tile {
        origin_x,
        origin_y,
        width,
        height,
        stride,
        colors: vec![[0; 4]; stride * height],
        depths: vec![0; stride * height],
    }
}

/// A pixel's depth as a fraction of the view: -1 for an unfinished pixel.
fn fraction(depth: Depth) -> f32 {
    match depth {
        Depth::Unfinished => -1.0,
        Depth::Finished { depth, count } => 1.0 - depth as f32 / count as f32,
    }
}

fn fractions(assembly: &Assembly) -> Vec<f32> {
    assembly.depths.iter().map(|depth| fraction(*depth)).collect()
}

#[test]
fn finished_empty_pixels_are_distinct_from_unfinished_pixels() {
    let mut assembly = Assembly::new(3, 2, 64, None);
    assembly.put(&blank_tile(1, 0, 1, 2, 1));
    assert!(assembly.partial);
    assert_eq!(fractions(&assembly), [-1.0, 1.0, -1.0, -1.0, 1.0, -1.0]);
    assert_ne!(assembly.depths[1], assembly.depths[0]);
    assert_eq!(assembly.completed, 2);
    assert!(assembly.pixels.iter().all(|v| *v == 0));
}

#[test]
fn finer_pass_preserves_previous_pixels_until_replaced_including_empty_pixels() {
    let previous = Image {
        width: 2,
        height: 1,
        pixels: vec![10, 20, 30, 255, 40, 50, 60, 255],
        depths: vec![Depth::Finished { depth: 0, count: 32 }; 2],
    };
    let mut assembly = Assembly::new(4, 2, 64, Some(&previous));
    assert!(!assembly.partial);
    assert_eq!(fractions(&assembly), [1.0; 8]);
    assembly.put(&blank_tile(1, 0, 2, 1, 2));
    assert_eq!(
        assembly.pixels,
        [
            [10, 20, 30, 255],
            [0; 4],
            [0; 4],
            [40, 50, 60, 255],
            [10, 20, 30, 255],
            [10, 20, 30, 255],
            [40, 50, 60, 255],
            [40, 50, 60, 255],
        ]
        .concat()
    );
}

#[test]
fn a_tile_writes_its_own_colors_row_by_row() {
    let mut assembly = Assembly::new(3, 3, 64, None);
    let tile = Tile {
        origin_x: 1,
        origin_y: 1,
        width: 2,
        height: 2,
        stride: 3,
        colors: vec![
            [1, 1, 1, 1],
            [2, 2, 2, 2],
            [9, 9, 9, 9],
            [3, 3, 3, 3],
            [4, 4, 4, 4],
        ],
        depths: vec![16, 32, 0, 48, 64],
    };
    assembly.put(&tile);
    assert_eq!(assembly.completed, 4);
    assert_eq!(
        fractions(&assembly),
        [-1.0, -1.0, -1.0, -1.0, 0.75, 0.5, -1.0, 0.25, 0.0]
    );
    assert_eq!(
        assembly.pixels,
        [
            [0; 4],
            [0; 4],
            [0; 4],
            [0; 4],
            [1; 4],
            [2; 4],
            [0; 4],
            [3; 4],
            [4; 4],
        ]
        .concat()
    );
}

#[test]
fn publication_is_due_only_while_pixels_remain_unfinished() {
    let mut assembly = Assembly::new(2, 1, 64, None);
    assert!(!assembly.publication_due(false));
    assert!(assembly.publication_due(true));
    assembly.put(&blank_tile(0, 0, 1, 1, 1));
    assert!(assembly.publication_due(true));
    assembly.put(&blank_tile(1, 0, 1, 1, 1));
    assert!(!assembly.publication_due(true));
}

#[test]
fn resampling_takes_the_proportional_source_cell() {
    let depth = vec![1u8, 2, 3, 4, 5, 6];
    assert_eq!(resample(&depth, 3, 2, 6, 2, 1), vec![1, 1, 2, 2, 3, 3, 4, 4, 5, 5, 6, 6]);
    assert_eq!(resample(&depth, 3, 2, 2, 1, 1), vec![1, 2]);
    assert_eq!(resample(&depth, 3, 2, 0, 0, 1), Vec::<u8>::new());
    let rgba = vec![10u8, 20, 30, 40, 50, 60, 70, 80];
    assert_eq!(resample(&rgba, 2, 1, 1, 2, 4), vec![10, 20, 30, 40, 10, 20, 30, 40]);
}

#[test]
fn a_pixel_takes_its_objects_color_or_white() {
    let colors = vec![[1, 2, 3], [4, 5, 6]];
    assert_eq!(base_color(Some(1), &colors), [4, 5, 6]);
    assert_eq!(base_color(None, &colors), [255, 255, 255]);
}
