use progred::scene::{composite, place_tile, slabs, strides_valid, ScenePixel};

fn pixel(depth: u32, object: Option<usize>) -> ScenePixel {
    ScenePixel { depth, object }
}

fn empty(count: usize) -> Vec<ScenePixel> {
    vec![pixel(0, None); count]
}

#[test]
fn the_nearer_surface_wins_and_the_far_voxel_is_the_far_plane() {
    let mut scene = empty(4);
    composite(&mut scene, &vec![0, 5, 9, 3], 0, 10);
    assert_eq!(
        scene,
        vec![pixel(0, None), pixel(5, Some(0)), pixel(10, Some(0)), pixel(3, Some(0))]
    );
    composite(&mut scene, &vec![2, 5, 1, 7], 1, 10);
    assert_eq!(
        scene,
        vec![pixel(2, Some(1)), pixel(5, Some(0)), pixel(10, Some(0)), pixel(7, Some(1))]
    );
}

#[test]
fn compositing_keeps_the_nearer_object_in_either_order() {
    let first = vec![0, 5, 9, 3];
    let second = vec![2, 6, 1, 7];
    let mut forward = empty(4);
    composite(&mut forward, &first, 0, 10);
    composite(&mut forward, &second, 1, 10);
    let mut backward = empty(4);
    composite(&mut backward, &second, 1, 10);
    composite(&mut backward, &first, 0, 10);
    assert_eq!(forward, backward);
    assert_eq!(
        forward,
        vec![pixel(2, Some(1)), pixel(6, Some(1)), pixel(10, Some(0)), pixel(7, Some(1))]
    );
}

#[test]
fn a_tile_is_clipped_at_the_image_edges() {
    let tile = vec![pixel(1, Some(0)), pixel(2, Some(0)), pixel(3, Some(1)), pixel(4, Some(1))];
    let mut image = empty(15);
    place_tile(&mut image, 5, 3, 1, 0, &tile, 2);
    let mut expected = empty(15);
    expected[1] = tile[0];
    expected[2] = tile[1];
    expected[6] = tile[2];
    expected[7] = tile[3];
    assert_eq!(image, expected);
    place_tile(&mut image, 5, 3, 4, 2, &tile, 2);
    expected[14] = tile[0];
    assert_eq!(image, expected);
}

#[test]
fn strides_shrink_and_fit_every_region_size() {
    let sizes = vec![64, 16, 4];
    assert!(strides_valid(&vec![8, 2, 1], &sizes));
    assert!(strides_valid(&vec![128], &sizes));
    assert!(!strides_valid(&vec![], &sizes));
    assert!(!strides_valid(&vec![2, 8], &sizes));
    assert!(!strides_valid(&vec![2, 2], &sizes));
    assert!(!strides_valid(&vec![3], &sizes));
    assert!(!strides_valid(&vec![4, 0], &sizes));
}

#[test]
fn slabs_run_from_the_nearest_to_the_farthest() {
    assert_eq!(slabs(100, 32), vec![3, 2, 1, 0]);
    assert_eq!(slabs(64, 32), vec![1, 0]);
    assert_eq!(slabs(0, 32), Vec::<usize>::new());
}
