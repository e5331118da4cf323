use bevy_dcc::inspector::{breadcrumb, clamp_row_offset, column_headers, scroll_row_offset, tab_label, visible_rows};
use bevy_dcc::node_graph::NodeGraphState;
use bevy_dcc::types::{NodeId, NodeType, PrimInspectorState, PrimInspectorTab};

#[test]
fn rows_shown_are_bounded() {
    assert_eq!(visible_rows(30, 1000), 30);
    assert_eq!(visible_rows(500, 1000), 200);
    assert_eq!(visible_rows(30, 12), 12);
}

#[test]
fn offsets_are_clamped_to_fill_the_sheet() {
    assert_eq!(clamp_row_offset(95, 10, 100), 90);
    assert_eq!(clamp_row_offset(5, 10, 100), 5);
    assert_eq!(clamp_row_offset(5, 10, 3), 0);
    assert_eq!(scroll_row_offset(5, -10, 100, 10), 0);
    assert_eq!(scroll_row_offset(5, 3, 100, 10), 8);
    assert_eq!(scroll_row_offset(85, 30, 100, 10), 90);
}

#[test]
fn vector_columns_split_into_components() {
    let names = vec!["P".to_string(), "id".to_string(), "q".to_string()];
    let hs = column_headers(&names, &vec![3, 1, 5]);
    let got: Vec<(&str, usize, usize)> = hs.iter().map(|h| (h.header.as_str(), h.source, h.component)).collect();
    assert_eq!(
        got,
        vec![
            ("P.X", 0, 0),
            ("P.Y", 0, 1),
            ("P.Z", 0, 2),
            ("id", 1, 0),
            ("q.X", 2, 0),
            ("q.Y", 2, 1),
            ("q.Z", 2, 2),
            ("q.W", 2, 3),
            ("q.?", 2, 4),
        ]
    );
}

#[test]
fn tabs_show_their_counts() {
    assert_eq!(tab_label(PrimInspectorTab::Vertex, 8), "Vertex (8)");
    assert_eq!(tab_label(PrimInspectorTab::FaceVarying, 0), "FaceVarying (0)");
}

#[test]
fn the_path_names_the_selected_node() {
    let mut g: NodeGraphState<f32, [f32; 3], (f32, f32)> = NodeGraphState::new((0.0, 0.0));
    assert_eq!(breadcrumb(&g), "");
    let a = g.add_node("Cube".to_string(), NodeType::CreateCube { size: 1.0 }, (0.0, 0.0));
    g.selected_node = Some(a);
    assert_eq!(breadcrumb(&g), "/Cube");
    g.selected_node = Some(NodeId(9));
    assert_eq!(breadcrumb(&g), "/");
}

#[test]
fn the_inspector_cache_and_tabs() {
    let mut s: PrimInspectorState<u8> = PrimInspectorState::new();
    assert!(s.is_cache_valid(None, 0));
    s.update_cache(Some(NodeId(1)), 7, 3);
    assert!(s.is_cache_valid(Some(NodeId(1)), 3));
    assert!(!s.is_cache_valid(Some(NodeId(1)), 4));
    assert_eq!(s.get_cached_mesh(), Some(&7));
    s.row_offset = 40;
    s.set_active_tab(PrimInspectorTab::Vertex);
    assert_eq!(s.row_offset, 40);
    s.set_active_tab(PrimInspectorTab::Uniform);
    assert_eq!(s.row_offset, 0);
    s.clear_cache(Some(NodeId(2)));
    assert_eq!(s.get_cached_mesh(), None);
    assert_eq!(s.cached_node_id, Some(NodeId(2)));
}
