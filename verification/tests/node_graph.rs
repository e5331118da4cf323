use bevy_dcc::node_graph::{dive_target, Connection, NodeGraphState};
use bevy_dcc::types::{ConnectionId, NodeId, NodeType, SubnetId};

type Graph = NodeGraphState<f32, [f32; 3], (f32, f32)>;
type Op = NodeType<f32, [f32; 3]>;

fn cube() -> Op {
    NodeType::CreateCube { size: 1.0 }
}

fn transform() -> Op {
    NodeType::Transform { translation: [0.0; 3], rotation: [0.0; 3], scale: [1.0; 3] }
}

#[test]
fn a_new_graph_holds_only_the_output_node() {
    let g = Graph::new((200.0, 400.0));
    assert_eq!(g.nodes.len(), 1);
    assert_eq!(g.nodes[0].id, NodeId(0));
    assert_eq!(g.nodes[0].name, "Output");
    assert!(matches!(g.nodes[0].node_type, NodeType::Output));
    assert_eq!(g.nodes[0].inputs.len(), 1);
    assert_eq!(g.nodes[0].inputs[0].name, "Scene");
    assert!(g.nodes[0].outputs.is_empty());
    assert_eq!(g.next_node_id, 1);
    assert!(g.connections.is_empty());
}

#[test]
fn nodes_get_fresh_ids_and_sockets() {
    let mut g = Graph::new((0.0, 0.0));
    let a = g.add_node("Cube".to_string(), cube(), (1.0, 2.0));
    let b = g.add_node("Merge".to_string(), NodeType::Merge, (3.0, 4.0));
    assert_eq!(a, NodeId(1));
    assert_eq!(b, NodeId(2));
    let merge = &g.nodes[2];
    let names: Vec<&str> = merge.inputs.iter().map(|s| s.name.as_str()).collect();
    assert_eq!(names, vec!["A", "B"]);
    assert_eq!(merge.outputs[0].name, "Result");
    assert_eq!(g.nodes[1].outputs[0].name, "Mesh");
    assert!(g.nodes[1].inputs.is_empty());
}

#[test]
fn connecting_an_input_replaces_its_connection() {
    let mut g = Graph::new((0.0, 0.0));
    let a = g.add_node("A".to_string(), cube(), (0.0, 0.0));
    let b = g.add_node("B".to_string(), cube(), (0.0, 0.0));
    g.add_connection(a, 0, NodeId(0), 0);
    g.add_connection(b, 0, NodeId(0), 0);
    assert_eq!(g.connections.len(), 1);
    assert_eq!(
        g.connections[0],
        Connection { id: ConnectionId(1), from_node: b, from_output: 0, to_node: NodeId(0), to_input: 0 }
    );
    assert_eq!(g.nodes[0].inputs[0].connected_output, Some((b, 0)));
}

#[test]
fn removing_a_connection_clears_its_input() {
    let mut g = Graph::new((0.0, 0.0));
    let a = g.add_node("A".to_string(), cube(), (0.0, 0.0));
    g.add_connection(a, 0, NodeId(0), 0);
    g.remove_connection(ConnectionId(0));
    assert!(g.connections.is_empty());
    assert_eq!(g.nodes[0].inputs[0].connected_output, None);
    g.remove_connection(ConnectionId(5));
    assert!(g.connections.is_empty());
}

#[test]
fn deleting_selected_nodes_keeps_the_output_node() {
    let mut g = Graph::new((0.0, 0.0));
    let a = g.add_node("A".to_string(), cube(), (0.0, 0.0));
    let t = g.add_node("T".to_string(), transform(), (0.0, 0.0));
    g.add_connection(a, 0, t, 0);
    g.add_connection(t, 0, NodeId(0), 0);
    g.selected_nodes = vec![t, NodeId(0)];
    g.selected_node = Some(t);
    g.delete_selected();
    let ids: Vec<NodeId> = g.nodes.iter().map(|n| n.id).collect();
    assert_eq!(ids, vec![NodeId(0), a]);
    assert!(g.connections.is_empty());
    assert!(g.selected_nodes.is_empty());
    assert_eq!(g.selected_node, None);
    assert_eq!(g.nodes[0].inputs[0].connected_output, None);
}

#[test]
fn deleting_with_no_node_selected_removes_the_selected_wire() {
    let mut g = Graph::new((0.0, 0.0));
    let a = g.add_node("A".to_string(), cube(), (0.0, 0.0));
    g.add_connection(a, 0, NodeId(0), 0);
    g.click_connection(ConnectionId(0));
    g.delete_selected();
    assert!(g.connections.is_empty());
    assert_eq!(g.selected_connection, None);
    assert_eq!(g.nodes.len(), 2);
}

#[test]
fn evaluation_order_puts_sources_first() {
    let mut g = Graph::new((0.0, 0.0));
    let a = g.add_node("A".to_string(), cube(), (0.0, 0.0));
    let b = g.add_node("B".to_string(), cube(), (0.0, 0.0));
    let m = g.add_node("M".to_string(), NodeType::Merge, (0.0, 0.0));
    let t = g.add_node("T".to_string(), transform(), (0.0, 0.0));
    g.add_connection(a, 0, m, 0);
    g.add_connection(b, 0, m, 1);
    g.add_connection(m, 0, t, 0);
    g.add_connection(t, 0, NodeId(0), 0);
    assert_eq!(g.output_source(), Some(t));
    assert_eq!(g.evaluation_order(t), vec![a, b, m, t]);
    assert!(g.evaluation_order(NodeId(99)).is_empty());
}

#[test]
fn evaluation_order_visits_a_shared_source_once() {
    let mut g = Graph::new((0.0, 0.0));
    let a = g.add_node("A".to_string(), cube(), (0.0, 0.0));
    let m = g.add_node("M".to_string(), NodeType::Merge, (0.0, 0.0));
    g.add_connection(a, 0, m, 0);
    g.add_connection(a, 0, m, 1);
    assert_eq!(g.evaluation_order(m), vec![a, m]);
}

#[test]
fn no_output_source_until_connected() {
    let g = Graph::new((0.0, 0.0));
    assert_eq!(g.output_source(), None);
}

#[test]
fn clicking_and_dragging_nodes() {
    let mut g = Graph::new((0.0, 0.0));
    let a = g.add_node("A".to_string(), cube(), (0.0, 0.0));
    let b = g.add_node("B".to_string(), cube(), (0.0, 0.0));
    g.click_node(a, false);
    g.click_node(b, true);
    assert_eq!(g.selected_nodes, vec![a, b]);
    assert_eq!(g.selected_node, Some(b));
    g.click_node(a, false);
    assert_eq!(g.selected_nodes, vec![a]);
    g.start_node_drag(b);
    assert_eq!(g.selected_nodes, vec![b]);
    assert_eq!(g.dragging_node, Some(b));
    g.stop_node_drag();
    assert_eq!(g.dragging_node, None);
    g.set_marquee_selection(vec![a, b]);
    g.commit_marquee();
    assert_eq!(g.selected_node, Some(a));
    g.click_canvas();
    assert!(g.selected_nodes.is_empty());
    assert_eq!(g.selected_node, None);
}

#[test]
fn wires_connect_on_release_over_an_input() {
    let mut g = Graph::new((0.0, 0.0));
    let a = g.add_node("A".to_string(), cube(), (0.0, 0.0));
    g.press_output(a, 0, true);
    assert_eq!(g.connecting_from, Some((a, 0)));
    g.release_on_input(a, 0);
    assert!(g.connections.is_empty());
    assert_eq!(g.connecting_from, None);
    g.press_output(a, 0, false);
    g.release_on_input(NodeId(0), 0);
    assert_eq!(g.connections.len(), 1);
    assert_eq!(g.nodes[0].inputs[0].connected_output, Some((a, 0)));
    g.press_output(a, 0, false);
    g.cancel_wire();
    assert_eq!(g.connecting_from, None);
}

#[test]
fn renaming_a_node() {
    let mut g = Graph::new((0.0, 0.0));
    let a = g.add_node("Cube".to_string(), cube(), (0.0, 0.0));
    g.start_rename(a);
    assert_eq!(g.rename_buffer, "Cube");
    g.rename_buffer = "Box".to_string();
    g.commit_rename();
    assert_eq!(g.nodes[1].name, "Box");
    assert_eq!(g.renaming_node, None);
    g.start_rename(a);
    g.rename_buffer = "Other".to_string();
    g.cancel_rename();
    assert_eq!(g.nodes[1].name, "Box");
}

#[test]
fn subnet_nodes_can_be_entered() {
    let s: Op = NodeType::Subnet { id: SubnetId(3), name: "ICE".to_string() };
    assert_eq!(dive_target(&s), Some(SubnetId(3)));
    assert_eq!(dive_target(&cube()), None);
}

#[test]
fn deleting_keeps_unrelated_nodes_and_wires_and_clears_fed_inputs() {
    let mut g = Graph::new((0.0, 0.0));
    let a = g.add_node("A".to_string(), cube(), (0.0, 0.0));
    let b = g.add_node("B".to_string(), cube(), (0.0, 0.0));
    let m = g.add_node("M".to_string(), NodeType::Merge, (0.0, 0.0));
    g.add_connection(a, 0, m, 0);
    g.add_connection(b, 0, m, 1);
    g.add_connection(m, 0, NodeId(0), 0);
    g.selected_nodes = vec![a];
    g.delete_selected();
    let ids: Vec<NodeId> = g.nodes.iter().map(|n| n.id).collect();
    assert_eq!(ids, vec![NodeId(0), b, m]);
    let conns: Vec<ConnectionId> = g.connections.iter().map(|c| c.id).collect();
    assert_eq!(conns, vec![ConnectionId(1), ConnectionId(2)]);
    assert_eq!(g.nodes[2].inputs[0].connected_output, None);
    assert_eq!(g.nodes[2].inputs[1].connected_output, Some((b, 0)));
    assert_eq!(g.nodes[0].inputs[0].connected_output, Some((m, 0)));
}

#[test]
fn deleting_a_wire_keeps_every_node() {
    let mut g = Graph::new((0.0, 0.0));
    let a = g.add_node("A".to_string(), cube(), (0.0, 0.0));
    let t = g.add_node("T".to_string(), transform(), (0.0, 0.0));
    g.add_connection(a, 0, t, 0);
    g.click_connection(ConnectionId(0));
    g.delete_selected();
    let ids: Vec<NodeId> = g.nodes.iter().map(|n| n.id).collect();
    assert_eq!(ids, vec![NodeId(0), a, t]);
    assert_eq!(g.nodes[2].inputs[0].connected_output, None);
}

#[test]
fn a_wire_released_on_its_own_node_is_not_connected() {
    let mut g = Graph::new((0.0, 0.0));
    let t = g.add_node("T".to_string(), transform(), (0.0, 0.0));
    g.press_output(t, 0, true);
    g.release_on_input(t, 0);
    assert!(g.connections.is_empty());
    assert_eq!(g.connecting_from, None);
}

#[test]
fn inputs_read_their_sources_by_position() {
    let mut g = Graph::new((0.0, 0.0));
    let a = g.add_node("A".to_string(), cube(), (0.0, 0.0));
    let b = g.add_node("B".to_string(), cube(), (0.0, 0.0));
    let m = g.add_node("M".to_string(), NodeType::Merge, (0.0, 0.0));
    g.add_connection(b, 0, m, 0);
    g.add_connection(a, 0, m, 1);
    let order = g.evaluation_order(m);
    assert_eq!(order, vec![b, a, m]);
    assert_eq!(g.input_slots(m, &order, 2), vec![0, 1]);
    assert_eq!(g.input_slots(m, &order, 1), vec![0]);
    assert_eq!(g.input_slots(NodeId(99), &order, 2), Vec::<usize>::new());
    assert_eq!(g.scene_entries(&order, &vec![true, false, true]), vec![0]);
}
