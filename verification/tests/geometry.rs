use bevy::math::Vec3;
use bevy_dcc::attribute::Attribute;
use bevy_dcc::types::SubnetValue;

type Geometry = bevy_dcc::geometry::Geometry<f32, Vec3>;
type ExecutionContext = bevy_dcc::geometry::ExecutionContext<f32, Vec3>;
type AttributeData = bevy_dcc::geometry::AttributeData<f32, Vec3>;

#[test]
fn test_attribute_data_type_erasure() {
    let attr = Attribute::new("density", vec![1.0f32, 2.0, 3.0]);
    let data = AttributeData::Float(attr);

    assert_eq!(data.name(), "density");
    assert_eq!(data.len(), 3);
    assert!(data.as_float().is_some());
    assert!(data.as_vec3().is_none());
}

#[test]
fn test_point_cloud_creation() {
    let points = vec![Vec3::new(0.0, 0.0, 0.0), Vec3::new(1.0, 0.0, 0.0), Vec3::new(0.0, 1.0, 0.0)];
    let geo = Geometry::from_points(points);

    assert_eq!(geo.point_count(), 3);
    assert!(geo.topology.is_points());
}

#[test]
fn test_triangle_mesh_creation() {
    let points = vec![Vec3::new(0.0, 0.0, 0.0), Vec3::new(1.0, 0.0, 0.0), Vec3::new(0.0, 1.0, 0.0)];
    let indices = vec![0, 1, 2];
    let geo = Geometry::from_triangles(points, indices);

    assert_eq!(geo.point_count(), 3);
    assert_eq!(geo.primitive_count(), 1);
    assert!(geo.topology.is_polymesh());
}

#[test]
fn test_attribute_storage() {
    let mut geo = Geometry::from_points(vec![Vec3::ZERO; 3]);

    let density = Attribute::new("density", vec![1.0, 2.0, 3.0]);
    geo.set_float_attribute(density);

    let retrieved = geo.get_float_attribute("density").unwrap();
    assert_eq!(retrieved.data, vec![1.0, 2.0, 3.0]);

    assert!(geo.has_attribute("density"));
    assert!(!geo.has_attribute("nonexistent"));
}

#[test]
fn test_p_attribute() {
    let points = vec![Vec3::new(1.0, 2.0, 3.0), Vec3::new(4.0, 5.0, 6.0)];
    let mut geo = Geometry::from_points(points.clone());

    let p = geo.get_p();
    assert_eq!(p.data, points);

    let new_points = vec![Vec3::new(10.0, 20.0, 30.0), Vec3::new(40.0, 50.0, 60.0)];
    let new_p = Attribute::new("P", new_points.clone());
    geo.set_p(&new_p);

    assert_eq!(geo.points, new_points);
}

#[test]
fn test_context_float_storage() {
    let mut ctx = ExecutionContext::new();

    let density = Attribute::new("density", vec![1.0, 2.0, 3.0]);
    ctx.set_float(density);

    let retrieved = ctx.get_float("density").unwrap();
    assert_eq!(retrieved.data, vec![1.0, 2.0, 3.0]);
}

#[test]
fn test_context_vec3_storage() {
    let mut ctx = ExecutionContext::new();

    let positions = Attribute::new("P", vec![Vec3::new(1.0, 2.0, 3.0), Vec3::new(4.0, 5.0, 6.0)]);
    ctx.set_vec3(positions);

    let retrieved = ctx.get_vec3("P").unwrap();
    assert_eq!(retrieved.len(), 2);
}

#[test]
fn test_context_missing_attribute() {
    let ctx = ExecutionContext::new();

    let result = ctx.get_float("nonexistent");
    assert!(result.is_err());
}

#[test]
fn stored_streams_replace_their_namesakes_and_report_what_is_missing() {
    let mut ctx = ExecutionContext::new();
    ctx.set_int(Attribute::new("id", vec![1, 2]));
    ctx.set_int(Attribute::new("id", vec![3]));
    assert_eq!(ctx.geometry.attributes.len(), 1);
    assert_eq!(ctx.get_int("id").unwrap().data, vec![3]);
    assert_eq!(ctx.get_float("id").unwrap_err(), "Attribute 'id' not found or wrong type (expected Float)");
    assert_eq!(ctx.get_float("P").unwrap_err(), "Use get_vec3 for P (position) attribute");
    assert!(ctx.require_attribute("id").is_ok());
    assert!(ctx.require_attribute("P").is_ok());
    assert_eq!(ctx.require_attribute("N").unwrap_err(), "getAttribute: 'N' not found in context");
    ctx.add_external_geometry("template".to_string(), Geometry::from_points(vec![Vec3::ONE]));
    assert_eq!(ctx.get_external_geometry("template").unwrap().points, vec![Vec3::ONE]);
    assert!(ctx.get_external_geometry("other").is_none());
}

#[test]
fn subnet_values_answer_only_for_their_own_kind() {
    type Value = SubnetValue<Vec<u32>, f32, [f32; 3]>;
    let m: Value = SubnetValue::Mesh(vec![0, 1, 2]);
    let v: Value = SubnetValue::Vec3([1.0, 2.0, 3.0]);
    let f: Value = SubnetValue::Float(0.5);
    let i: Value = SubnetValue::Int(-4);
    assert_eq!(m.as_mesh(), Some(&vec![0, 1, 2]));
    assert_eq!(m.as_vec3(), None);
    assert_eq!(v.as_vec3(), Some([1.0, 2.0, 3.0]));
    assert_eq!(v.as_float(), None);
    assert_eq!(f.as_float(), Some(0.5));
    assert_eq!(f.as_int(), None);
    assert_eq!(i.as_int(), Some(-4));
    assert!(i.as_mesh().is_none());
}
