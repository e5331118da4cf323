use bevy_dcc::ice_nodes::{scatter_triangles, result_indices, GetTemplate, ScatterPoints};
use bevy_dcc::scatter::{scatter_draws, LcgRng, ScatterDraw};
use bevy_dcc::topology::Topology;

#[test]
fn generator_follows_the_lcg_recurrence() {
    let mut rng = LcgRng::new(42);
    assert_eq!(rng.state, 43);
    assert_eq!(rng.next_u32(), 1961148301);
    assert_eq!(rng.next_u32(), 1359726755);
    assert_eq!(rng.next_u32(), 978982798);
    let mut zero = LcgRng::new(0);
    assert_eq!(zero.state, 1);
    assert_eq!(zero.next_u32(), 908834774);
}

#[test]
fn each_draw_takes_three_numbers() {
    let d = scatter_draws(5, 2, 42);
    assert_eq!(
        d,
        vec![
            ScatterDraw { triangle: 1961148301 % 5, r1: 1359726755, r2: 978982798 },
            ScatterDraw { triangle: 1314357137 % 5, r1: 197503555, r2: 2074212708 },
        ]
    );
    assert!(scatter_draws(1, 0, 7).is_empty());
}

#[test]
fn scatter_needs_a_polygon_mesh_with_triangles() {
    assert_eq!(
        scatter_triangles(&Topology::points(), 3).err().unwrap(),
        "ScatterPoints requires PolyMesh topology"
    );
    let bad = Topology::polymesh(vec![4], vec![0, 1, 2, 3]);
    assert_eq!(scatter_triangles(&bad, 4).err().unwrap(), "No valid triangles found for scattering");
    let mesh = Topology::polymesh(vec![3, 4, 3, 3], vec![0, 1, 2, 0, 1, 2, 3, 1, 2, 3, 2, 3, 9]);
    assert_eq!(scatter_triangles(&mesh, 4).unwrap(), vec![(0, 1, 2), (1, 2, 3)]);
}

#[test]
fn subnet_results_become_index_buffers() {
    let input = vec![7u32, 8, 9];
    assert_eq!(result_indices(&Topology::triangles(vec![0, 2, 1]), &input), vec![0, 2, 1]);
    assert!(result_indices(&Topology::points(), &input).is_empty());
    assert_eq!(result_indices(&Topology::Curves { curve_counts: vec![2] }, &input), input);
}

#[test]
fn query_and_scatter_nodes() {
    assert!(GetTemplate::new().execute().is_ok());
    let s = ScatterPoints::new(100, 42);
    assert_eq!((s.count, s.seed), (100, 42));
}
