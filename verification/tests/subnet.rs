use bevy_dcc::subnet::{attribute_missing, input_attribute_name, IceStep, SubnetGraph, SubnetStore};
use bevy_dcc::types::{GetAttributeTarget, NodeId, SubnetId, SubnetNodeType};

type Sub = SubnetGraph<f32, [f32; 3], (f32, f32)>;
type Kind = SubnetNodeType<f32, [f32; 3]>;

fn graph() -> Sub {
    Sub::new(SubnetId(0), "ICE".to_string(), (60.0, 200.0), (500.0, 200.0))
}

#[test]
fn a_new_subnet_has_input_and_output_nodes() {
    let g = graph();
    assert_eq!(g.nodes.len(), 2);
    assert!(matches!(g.nodes[0].node_type, SubnetNodeType::SubInput));
    assert!(matches!(g.nodes[1].node_type, SubnetNodeType::SubOutput));
    let outs: Vec<(&str, &str)> = g.nodes[0].outputs.iter().map(|o| (o.name.as_str(), o.value_hint)).collect();
    assert_eq!(outs, vec![("Mesh", "Mesh"), ("Points", "Vec3"), ("Template", "Mesh")]);
    assert_eq!(g.nodes[1].inputs[0].name, "Output");
    assert_eq!(g.nodes[1].inputs[0].value_hint, "AnyMesh");
    assert_eq!(g.next_node_id, 2);
}

#[test]
fn sockets_follow_the_node_kind() {
    let (ins, outs) = Sub::create_sockets(&SubnetNodeType::CopyToPoints);
    assert_eq!(ins.len(), 2);
    assert_eq!((ins[0].name.as_str(), ins[0].value_hint), ("Points", "Points"));
    assert_eq!((outs[0].name.as_str(), outs[0].value_hint), ("Instances", "Mesh"));
    let (ins, outs) = Sub::create_sockets(&SubnetNodeType::DotProduct);
    assert_eq!(ins.len(), 2);
    assert_eq!(outs[0].value_hint, "Float");
}

#[test]
fn no_connection_to_the_output_means_pass_through() {
    let g = graph();
    assert!(g.evaluation_order().is_none());
}

#[test]
fn execution_order_runs_feeders_first_and_skips_sub_input() {
    let mut g = graph();
    let add = g.add_node("Add".to_string(), SubnetNodeType::AddVec3, (0.0, 0.0));
    let c = g.add_node("Vec3".to_string(), SubnetNodeType::ConstVec3 { value: [0.0, 1.0, 0.0] }, (0.0, 0.0));
    let n = g.add_node("Norm".to_string(), SubnetNodeType::Normalize, (0.0, 0.0));
    g.add_connection(NodeId(0), 0, add, 0);
    g.add_connection(c, 0, add, 1);
    g.add_connection(add, 0, n, 0);
    g.add_connection(n, 0, NodeId(1), 0);
    assert_eq!(g.get_execution_order(NodeId(1)), vec![c, add, n, NodeId(1)]);
    assert_eq!(g.evaluation_order(), Some(vec![c, add, n]));
}

#[test]
fn execution_order_terminates_on_cycles() {
    let mut g = graph();
    let a = g.add_node("A".to_string(), SubnetNodeType::Normalize, (0.0, 0.0));
    let b = g.add_node("B".to_string(), SubnetNodeType::Normalize, (0.0, 0.0));
    g.add_connection(a, 0, b, 0);
    g.add_connection(b, 0, a, 0);
    assert_eq!(g.get_execution_order(a), vec![b, a]);
}

#[test]
fn steps_name_their_work() {
    let mut g = graph();
    let m = g.add_node("Mul".to_string(), SubnetNodeType::MultiplyVec3 { scalar: 2.0 }, (0.0, 0.0));
    let d = g.add_node("Dot".to_string(), SubnetNodeType::DotProduct, (0.0, 0.0));
    let ga = g.add_node("Get".to_string(), SubnetNodeType::GetAttribute { target: GetAttributeTarget::PtIndex }, (0.0, 0.0));
    let s = g.add_node("Scatter".to_string(), SubnetNodeType::ScatterPoints { count: 10, seed: 3 }, (0.0, 0.0));
    match g.plan_step(m).unwrap() {
        IceStep::Multiply { input, scalar } => {
            assert_eq!(input, "P");
            assert_eq!(scalar, 2.0);
        },
        _ => panic!("expected a multiply step"),
    }
    assert_eq!(g.plan_step(d).err().unwrap(), "DotProduct not yet implemented in new system");
    match g.plan_step(ga).unwrap() {
        IceStep::RequireAttribute { name } => assert_eq!(name, "ptIndex"),
        _ => panic!("expected an attribute check"),
    }
    assert!(matches!(g.plan_step(s).unwrap(), IceStep::Scatter { count: 10, seed: 3 }));
    assert!(matches!(g.plan_step(NodeId(0)).unwrap(), IceStep::Nothing));
    assert_eq!(g.plan_step(NodeId(42)).err().unwrap(), "Node NodeId(42) not found");
}

#[test]
fn missing_inputs_are_reported() {
    let mut g = graph();
    let add = g.add_node("Add".to_string(), SubnetNodeType::AddVec3, (0.0, 0.0));
    g.nodes[2].inputs.truncate(1);
    assert_eq!(g.plan_step(add).err().unwrap(), "Input 1 not found");
    assert_eq!(input_attribute_name(&g.nodes[2], 0), Ok("P".to_string()));
    assert_eq!(input_attribute_name(&g.nodes[2], 3), Err("Input 3 not found".to_string()));
    assert_eq!(attribute_missing("uv"), "getAttribute: 'uv' not found in context");
}

#[test]
fn subnet_wires_connect_on_release() {
    let mut g = graph();
    let k: Kind = SubnetNodeType::Normalize;
    let n = g.add_node("N".to_string(), k, (0.0, 0.0));
    g.press_output(NodeId(0), 0, true);
    g.release_on_input(n, 0);
    assert_eq!(g.nodes[2].inputs[0].connected_output, Some((NodeId(0), 0)));
    assert_eq!(g.connecting_from, None);
    g.remove_connection(g.connections[0].id);
    assert_eq!(g.nodes[2].inputs[0].connected_output, None);
}

#[test]
fn the_store_finds_subnets_by_id() {
    let mut store: SubnetStore<f32, [f32; 3], (f32, f32)> = SubnetStore::new();
    let a = store.create_subnet("A".to_string(), (0.0, 0.0), (1.0, 1.0));
    let b = store.create_subnet("B".to_string(), (0.0, 0.0), (1.0, 1.0));
    assert_eq!(a, SubnetId(0));
    assert_eq!(b, SubnetId(1));
    assert_eq!(store.get(b).unwrap().name, "B");
    assert!(store.get(SubnetId(7)).is_none());
    store.get_mut(a).unwrap().name = "Renamed".to_string();
    assert_eq!(store.get(a).unwrap().name, "Renamed");
    assert!(store.get_mut(SubnetId(7)).is_none());
}

#[test]
fn new_subnet_operators_get_subnets_in_order() {
    let mut g: bevy_dcc::node_graph::NodeGraphState<f32, [f32; 3], (f32, f32)> =
        bevy_dcc::node_graph::NodeGraphState::new((0.0, 0.0));
    let placeholder = SubnetId(usize::MAX);
    g.add_node("ICE".to_string(), bevy_dcc::types::NodeType::Subnet { id: placeholder, name: "ICE".to_string() }, (0.0, 0.0));
    g.add_node("Cube".to_string(), bevy_dcc::types::NodeType::CreateCube { size: 1.0 }, (0.0, 0.0));
    g.add_node("Fx".to_string(), bevy_dcc::types::NodeType::Subnet { id: placeholder, name: "Fx".to_string() }, (0.0, 0.0));
    let mut store: SubnetStore<f32, [f32; 3], (f32, f32)> = SubnetStore::new();
    store.create_subnet("Old".to_string(), (0.0, 0.0), (0.0, 0.0));
    bevy_dcc::subnet::assign_new_subnets(&mut g, &mut store, (60.0, 200.0), (500.0, 200.0));
    let ids: Vec<Option<SubnetId>> = g
        .nodes
        .iter()
        .map(|n| match &n.node_type {
            bevy_dcc::types::NodeType::Subnet { id, .. } => Some(*id),
            _ => None,
        })
        .collect();
    assert_eq!(ids, vec![None, Some(SubnetId(1)), None, Some(SubnetId(2))]);
    assert_eq!(store.next_id, 3);
    assert_eq!(store.get(SubnetId(2)).unwrap().name, "Fx");
}

#[test]
fn diving_needs_a_subnet() {
    let mut nav = bevy_dcc::subnet::GraphNavigation::new();
    nav.dive(Some(SubnetId(usize::MAX)));
    assert_eq!(nav.current_subnet, None);
    nav.dive(Some(SubnetId(4)));
    assert_eq!(nav.current_subnet, Some(SubnetId(4)));
    nav.dive(None);
    assert_eq!(nav.current_subnet, Some(SubnetId(4)));
    nav.leave();
    assert_eq!(nav.current_subnet, None);
}
