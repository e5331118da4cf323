use bevy_dcc::types::{
    canvas_label, is_generator, node_type_icon, node_type_label, socket_type_label, subnet_node_icon, Attribute,
    NodeType, PrimVarInterp, SubnetId, SubnetNodeType,
};

type Op = NodeType<f32, [f32; 3]>;

#[test]
fn operator_labels_and_icons() {
    let s: Op = NodeType::Subnet { id: SubnetId(0), name: "x".to_string() };
    assert_eq!(node_type_label(&s), "Subnet");
    assert_eq!(canvas_label(&s), "Integrated Creation Engine");
    let c: Op = NodeType::CopyToPoints;
    assert_eq!(node_type_label(&c), "Copy to Points");
    assert_eq!(canvas_label(&c), "Copy to Points");
    assert_eq!(node_type_icon(&c), "❇");
    let o: Op = NodeType::Output;
    assert_eq!(node_type_icon(&o), "▶");
}

#[test]
fn generators_are_the_creating_operators() {
    let g: Op = NodeType::LoadUsd { path: String::new() };
    assert!(is_generator(&g));
    let m: Op = NodeType::Merge;
    assert!(!is_generator(&m));
}

#[test]
fn subnet_node_labels() {
    let d: SubnetNodeType<f32, [f32; 3]> = SubnetNodeType::DotProduct;
    assert_eq!(subnet_node_icon(&d), "·");
    assert_eq!(socket_type_label(&d), "Vec3 → Float");
    let a: SubnetNodeType<f32, [f32; 3]> = SubnetNodeType::AddVec3;
    assert_eq!(socket_type_label(&a), "Vec3 → Vec3");
}

#[test]
fn mesh_attributes_record_interpolation() {
    let a = Attribute::vertex("P", vec![1, 2, 3]);
    assert_eq!(a.interp, PrimVarInterp::Vertex);
    assert_eq!(a.len(), 3);
    let u = Attribute::uniform("Cd", Vec::<i32>::new());
    assert_eq!(u.interp, PrimVarInterp::Uniform);
    assert!(u.is_empty());
    assert_eq!(PrimVarInterp::default(), PrimVarInterp::Vertex);
}
