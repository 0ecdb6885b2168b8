use progred::mesh::append_indices;

#[test]
fn appended_triangles_index_past_the_existing_vertices() {
    let mut indices = vec![0, 1, 2];
    assert_eq!(append_indices(&mut indices, 3, 3, &vec![0, 2, 1]), Some(()));
    assert_eq!(indices, vec![0, 1, 2, 3, 5, 4]);
    let mut empty = Vec::new();
    assert_eq!(append_indices(&mut empty, 0, 2, &vec![1, 0, 1]), Some(()));
    assert_eq!(empty, vec![1, 0, 1]);
}

#[test]
fn meshes_whose_vertices_overflow_an_index_are_not_joined() {
    let mut indices = vec![0, 1, 2];
    let existing = u32::MAX as usize;
    assert_eq!(append_indices(&mut indices, existing, 1, &vec![0]), None);
    assert_eq!(indices, vec![0, 1, 2]);
    assert_eq!(append_indices(&mut indices, 3, u32::MAX as usize - 3, &vec![0]), Some(()));
    assert_eq!(indices, vec![0, 1, 2, 3]);
    assert_eq!(append_indices(&mut indices, 4, u32::MAX as usize - 3, &vec![0]), None);
}
