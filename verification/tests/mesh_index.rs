use bevy_dcc::mesh_index::{
    copy_indices, grid_indices, index_sequence, lattice_indices, merge_indices, repeat_i32, sphere_indices,
    standard_index_attributes, valid_triangles, CellSplit,
};

#[test]
fn valid_triangles_skip_out_of_range_and_incomplete_groups() {
    let idx = vec![0, 1, 2, 2, 3, 9, 1, 2, 3, 0, 1];
    let tris = valid_triangles(&idx, 4);
    assert_eq!(tris, vec![(0, 1, 2), (1, 2, 3)]);
    assert!(valid_triangles(&vec![], 3).is_empty());
}

#[test]
fn merge_shifts_the_second_buffer() {
    let a = vec![0, 1, 2];
    let b = vec![0, 2, 1];
    assert_eq!(merge_indices(&a, &b, 3), vec![0, 1, 2, 3, 5, 4]);
    assert_eq!(merge_indices(&vec![], &b, 0), b);
}

#[test]
fn copies_are_offset_by_the_template_size() {
    let t = vec![0, 1, 2];
    assert_eq!(copy_indices(&t, 3, 3), vec![0, 1, 2, 3, 4, 5, 6, 7, 8]);
    assert!(copy_indices(&t, 3, 0).is_empty());
}

#[test]
fn grid_cell_winding() {
    // one cell: tl=0, tr=1, bl=2, br=3
    assert_eq!(grid_indices(1, 1), vec![0, 2, 1, 1, 2, 3]);
    // two columns: second cell starts at 1
    assert_eq!(grid_indices(1, 2), vec![0, 3, 1, 1, 3, 4, 1, 4, 2, 2, 4, 5]);
    assert!(grid_indices(0, 5).is_empty());
}

#[test]
fn sphere_cell_winding() {
    assert_eq!(sphere_indices(1), vec![0, 2, 1, 2, 3, 1]);
    let s = sphere_indices(2);
    assert_eq!(s.len(), 24);
    assert_eq!(&s[18..24], &[4, 7, 5, 7, 8, 5]);
    assert!(s.iter().all(|&i| i < 9));
    assert_eq!(lattice_indices(1, 1, CellSplit::Sphere), sphere_indices(1));
}

#[test]
fn standard_attributes_count_points_and_triangles() {
    let a = standard_index_attributes(4, 7);
    assert_eq!(a.pt_index, vec![0, 1, 2, 3]);
    assert_eq!(a.prim_index, vec![0, 1]);
    assert_eq!(a.pts_number, vec![4, 4, 4, 4]);
    assert_eq!(a.prims_number, vec![2, 2, 2, 2]);
    assert!(index_sequence(0).is_empty());
    assert_eq!(repeat_i32(-1, 3), vec![-1, -1, -1]);
}

#[test]
fn copies_that_do_not_fit_are_refused() {
    assert_eq!(bevy_dcc::mesh_index::try_copy_indices(&vec![0, 1, 2], 3, 2), Some(vec![0, 1, 2, 3, 4, 5]));
    assert_eq!(bevy_dcc::mesh_index::try_copy_indices(&vec![u32::MAX], 1, 2), None);
    assert_eq!(bevy_dcc::mesh_index::try_copy_indices(&vec![0], usize::MAX, 2), None);
}
