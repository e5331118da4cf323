use bevy_dcc::topology::Topology;

#[test]
fn test_triangle_topology() {
    let topo = Topology::triangles(vec![0, 1, 2, 2, 3, 0]);
    assert_eq!(topo.primitive_count(), 2);
    assert_eq!(topo.face_vertex_count(), 6);
}

#[test]
fn test_point_cloud() {
    let topo = Topology::points();
    assert!(topo.is_points());
    assert_eq!(topo.primitive_count(), 0);
}

#[test]
fn quads_count_four_vertices_per_face() {
    let topo = Topology::quads(vec![0, 1, 2, 3, 4, 5, 6, 7]);
    assert_eq!(topo.primitive_count(), 2);
    assert_eq!(topo.face_vertex_count(), 8);
    assert!(topo.is_polymesh());
    assert!(!topo.is_points());
}

#[test]
fn triangles_ignore_an_incomplete_last_face() {
    let topo = Topology::triangles(vec![0, 1, 2, 3]);
    assert_eq!(topo.primitive_count(), 1);
    assert_eq!(topo.face_vertex_count(), 4);
}

#[test]
fn polymesh_keeps_its_counts() {
    let topo = Topology::polymesh(vec![3, 4], vec![0, 1, 2, 0, 2, 3, 4]);
    assert_eq!(topo.primitive_count(), 2);
    assert_eq!(topo.face_vertex_count(), 7);
}

#[test]
fn describe_names_the_kind_and_count() {
    assert_eq!(Topology::points().describe(), "Points");
    assert_eq!(Topology::triangles(vec![0, 1, 2, 2, 3, 0]).describe(), "PolyMesh(2 faces)");
    let curves = Topology::Curves { curve_counts: vec![2, 3, 4] };
    assert_eq!(curves.describe(), "Curves(3 curves)");
    assert_eq!(curves.primitive_count(), 3);
    assert_eq!(curves.face_vertex_count(), 0);
}

#[test]
fn default_topology_is_a_point_cloud() {
    assert!(Topology::default().is_points());
}
