use bevy_dcc::scene::{prim_icon, segments_of, tree_lines, visible_objects, SceneHierarchy};
use bevy_dcc::types::{EvalResult, NamedMesh, NodeId, SceneObjectId};

fn named(paths: &[&str]) -> EvalResult<()> {
    EvalResult::Named(paths.iter().map(|p| NamedMesh { path: p.to_string(), mesh: () }).collect())
}

#[test]
fn prim_paths_split_into_segments() {
    let segs: Vec<String> = segments_of("//World/Geo/Cube").into_iter().map(|v| v.into_iter().collect()).collect();
    assert_eq!(segs, vec!["World", "Geo", "Cube"]);
    let one: Vec<String> = segments_of("").into_iter().map(|v| v.into_iter().collect()).collect();
    assert_eq!(one, vec![""]);
}

#[test]
fn icons_come_from_lowercase_names() {
    assert_eq!(prim_icon("MyGEOM", true), "🔷");
    assert_eq!(prim_icon("Looks", true), "🎨");
    assert_eq!(prim_icon("stuff", true), "📁");
    assert_eq!(prim_icon("BigSphere", false), "🔵");
    assert_eq!(prim_icon("GroundPlane", false), "⬜");
    assert_eq!(prim_icon("ÜBERCONE", false), "🔺");
    assert_eq!(prim_icon("thing", false), "🔹");
}

#[test]
fn a_single_mesh_gives_one_row() {
    let mut h = SceneHierarchy::new();
    h.rebuild(vec![(NodeId(3), "Cube".to_string(), EvalResult::Single(()))]);
    assert_eq!(h.objects.len(), 1);
    let o = &h.objects[0];
    assert_eq!((o.id, o.name.as_str(), o.icon, o.depth, o.has_children, o.expanded), (SceneObjectId(0), "Cube", "🔹", 0, false, true));
    assert_eq!(o.node_id, NodeId(3));
    assert_eq!(o.prim_path, None);
    assert_eq!(h.next_id, 1);
}

#[test]
fn a_stage_gives_group_ancestor_and_prim_rows() {
    let mut h = SceneHierarchy::new();
    h.rebuild(vec![(NodeId(1), "Stage".to_string(), named(&["/World/Geom/Cube", "/World/Geom/Ball", "/Cone"]))]);
    let rows: Vec<(&str, &str, usize, bool)> =
        h.objects.iter().map(|o| (o.name.as_str(), o.icon, o.depth, o.has_children)).collect();
    assert_eq!(
        rows,
        vec![
            ("Stage", "📂", 0, true),
            ("Geom", "🔷", 1, true),
            ("Cube", "🟫", 2, false),
            ("Ball", "🔵", 2, false),
            ("Cone", "🔺", 1, false),
        ]
    );
    assert_eq!(h.objects[2].prim_path.as_deref(), Some("/World/Geom/Cube"));
    let ids: Vec<usize> = h.objects.iter().map(|o| o.id.0).collect();
    assert_eq!(ids, vec![0, 1, 2, 3, 4]);
}

#[test]
fn rebuilding_keeps_expansion_by_name_and_keeps_counting_ids() {
    let mut h = SceneHierarchy::new();
    let entries = || vec![(NodeId(1), "Stage".to_string(), named(&["/World/Geo/Cube"]))];
    h.rebuild(entries());
    h.toggle_expanded(SceneObjectId(1));
    assert!(!h.objects[1].expanded);
    h.rebuild(entries());
    assert_eq!(h.objects[1].name, "Geo");
    assert!(!h.objects[1].expanded);
    assert!(h.objects[0].expanded);
    assert_eq!(h.objects[0].id, SceneObjectId(3));
}

#[test]
fn collapsed_rows_hide_their_subtree() {
    let mut h = SceneHierarchy::new();
    h.rebuild(vec![
        (NodeId(1), "Stage".to_string(), named(&["/W/Geo/A", "/W/Geo/B"])),
        (NodeId(2), "Cube".to_string(), EvalResult::Single(())),
    ]);
    assert_eq!(visible_objects(&h.objects), vec![0, 1, 2, 3, 4]);
    h.toggle_expanded(SceneObjectId(1));
    let shown = visible_objects(&h.objects);
    assert_eq!(shown, vec![0, 1, 4]);
    let lines = tree_lines(&h.objects, &shown);
    assert_eq!(lines.len(), 3);
    assert_eq!(lines[0], (false, vec![]));
    assert_eq!(lines[1], (true, vec![true]));
    assert_eq!(lines[2], (true, vec![]));
}

#[test]
fn selecting_a_row() {
    let mut h = SceneHierarchy::new();
    h.select(SceneObjectId(4), Some("/A".to_string()));
    assert_eq!(h.selected, Some(SceneObjectId(4)));
    assert_eq!(h.selected_prim_path.as_deref(), Some("/A"));
}
