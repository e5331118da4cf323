use bevy_dcc::node_graph::NodeGraphState;
use bevy_dcc::operator_stack::OperatorStack;
use bevy_dcc::types::{NodeId, NodeType};

type Graph = NodeGraphState<f32, [f32; 3], (f32, f32)>;

#[test]
fn the_stack_walks_down_from_the_output_node() {
    let mut g = Graph::new((0.0, 0.0));
    let a = g.add_node("Cube".to_string(), NodeType::CreateCube { size: 1.0 }, (0.0, 0.0));
    let b = g.add_node("Sphere".to_string(), NodeType::CreateSphere { radius: 0.5, segments: 8 }, (0.0, 0.0));
    let m = g.add_node("Merge".to_string(), NodeType::Merge, (0.0, 0.0));
    g.add_connection(a, 0, m, 0);
    g.add_connection(b, 0, m, 1);
    g.add_connection(m, 0, NodeId(0), 0);
    let mut s = OperatorStack::new();
    s.rebuild(&g.nodes, &g.connections);
    let rows: Vec<(usize, &str, &str, usize, &str, bool)> = s
        .entries
        .iter()
        .map(|e| (e.node_id.0, e.name.as_str(), e.type_label, e.depth, e.type_icon, e.has_children))
        .collect();
    assert_eq!(
        rows,
        vec![
            (0, "Output", "Output", 0, "▶", true),
            (3, "Merge", "Merge", 1, "⊕", true),
            (1, "Cube", "Create Cube", 2, "◼", false),
            (2, "Sphere", "Create Sphere", 2, "●", false),
        ]
    );
}

#[test]
fn collapsed_entries_hide_their_inputs() {
    let mut g = Graph::new((0.0, 0.0));
    let a = g.add_node("Cube".to_string(), NodeType::CreateCube { size: 1.0 }, (0.0, 0.0));
    let t = g.add_node(
        "Move".to_string(),
        NodeType::Transform { translation: [0.0; 3], rotation: [0.0; 3], scale: [1.0; 3] },
        (0.0, 0.0),
    );
    g.add_connection(a, 0, t, 0);
    g.add_connection(t, 0, NodeId(0), 0);
    let mut s = OperatorStack::new();
    s.rebuild(&g.nodes, &g.connections);
    assert_eq!(s.entries.len(), 3);
    s.toggle_entry(t);
    s.rebuild(&g.nodes, &g.connections);
    let ids: Vec<NodeId> = s.entries.iter().map(|e| e.node_id).collect();
    assert_eq!(ids, vec![NodeId(0), t]);
    assert!(!s.entries[1].expanded);
    assert!(s.entries[1].has_children);
}

#[test]
fn no_output_node_means_no_rows() {
    let mut g = Graph::new((0.0, 0.0));
    g.nodes.clear();
    let mut s = OperatorStack::new();
    s.rebuild(&g.nodes, &g.connections);
    assert!(s.entries.is_empty());
}

#[test]
fn selection_falls_back_to_the_graph() {
    let mut s = OperatorStack::new();
    assert!(s.is_selected(NodeId(2), Some(NodeId(2))));
    assert!(!s.is_selected(NodeId(2), None));
    s.select_entry(NodeId(5));
    assert!(s.is_selected(NodeId(5), Some(NodeId(2))));
    assert!(!s.is_selected(NodeId(2), Some(NodeId(2))));
}
