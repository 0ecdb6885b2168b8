use progred::depth_tile::{child_corners, DepthTile};

#[test]
fn an_empty_tile_has_only_empty_rays() {
    let tile = DepthTile::new(4);
    assert_eq!(tile.depths, vec![0; 16]);
    assert!(!tile.hidden([0, 0, 0], 4));
}

#[test]
fn global_columns_wrap_into_the_tile() {
    let tile = DepthTile::new(4);
    assert_eq!(tile.offset(5, 6), 9);
    assert_eq!(tile.offset(4, 4), 0);
    assert_eq!(tile.offset(3, 0), 3);
}

#[test]
fn a_filled_region_is_hidden_at_its_own_depth_only() {
    let mut tile = DepthTile::new(4);
    tile.fill([0, 0, 3], 2);
    assert_eq!(
        tile.depths,
        vec![6, 6, 0, 0, 6, 6, 0, 0, 0, 0, 0, 0, 0, 0, 0, 0]
    );
    assert!(tile.hidden([0, 0, 3], 2));
    assert!(tile.hidden([0, 0, 0], 2));
    assert!(!tile.hidden([0, 0, 4], 2));
    assert!(!tile.hidden([2, 0, 0], 2));
    assert!(tile.hidden([4, 4, 3], 2));
}

#[test]
fn filling_never_lowers_a_depth() {
    let mut tile = DepthTile::new(4);
    tile.fill([0, 0, 3], 2);
    tile.fill([1, 1, 0], 2);
    assert_eq!(
        tile.depths,
        vec![6, 6, 0, 0, 6, 6, 3, 0, 0, 3, 3, 0, 0, 0, 0, 0]
    );
}

#[test]
fn filling_wraps_around_the_tile_edge() {
    let mut tile = DepthTile::new(4);
    tile.fill([3, 3, 0], 2);
    assert_eq!(
        tile.depths,
        vec![3, 0, 0, 3, 0, 0, 0, 0, 0, 0, 0, 0, 3, 0, 0, 3]
    );
}

#[test]
fn sampling_skips_covered_columns_and_steps_by_the_stride() {
    let mut tile = DepthTile::new(4);
    tile.fill([0, 0, 3], 2);
    assert_eq!(tile.columns_to_sample([0, 0, 0], 4, 2), vec![2, 8, 10]);
    assert_eq!(tile.columns_to_sample([0, 0, 0], 4, 3), vec![3, 12, 15]);
    assert_eq!(tile.columns_to_sample([0, 0, 0], 4, 1).len(), 12);
    assert_eq!(tile.columns_to_sample([0, 0, 8], 4, 2), vec![0, 2, 8, 10]);
    assert_eq!(tile.columns_to_sample([0, 0, 0], 0, 1), Vec::<usize>::new());
}

#[test]
fn children_are_visited_row_by_row_and_far_to_near() {
    assert_eq!(
        child_corners([0, 0, 0], 4, 2),
        vec![
            [0, 0, 2],
            [0, 0, 0],
            [2, 0, 2],
            [2, 0, 0],
            [0, 2, 2],
            [0, 2, 0],
            [2, 2, 2],
            [2, 2, 0],
        ]
    );
    assert_eq!(child_corners([8, 4, 0], 4, 4), vec![[8, 4, 0]]);
    assert_eq!(child_corners([0, 0, 0], 3, 1).len(), 27);
}
