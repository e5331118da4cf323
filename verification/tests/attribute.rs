use bevy_dcc::attribute::{Attribute, AttributeScope};

#[test]
fn test_attribute_creation() {
    let attr = Attribute::new("test", vec![1.0f32, 2.0, 3.0]);
    assert_eq!(attr.name, "test");
    assert_eq!(attr.len(), 3);
    assert_eq!(attr.scope, AttributeScope::Point);
}

#[test]
fn test_attribute_map() {
    let attr = Attribute::new("values", vec![1.0f32, 2.0, 3.0]);
    let doubled = attr.map(|&x| x * 2.0);
    assert_eq!(doubled.data, vec![2.0, 4.0, 6.0]);
}

#[test]
fn test_attribute_zip_map() {
    let a = Attribute::new("a", vec![1.0f32, 2.0, 3.0]);
    let b = Attribute::new("b", vec![10.0f32, 20.0, 30.0]);
    let sum = a.zip_map(&b, |&x, &y| x + y).unwrap();
    assert_eq!(sum.data, vec![11.0, 22.0, 33.0]);
}

#[test]
fn zip_map_rejects_different_lengths() {
    let a = Attribute::new("a", vec![1i32, 2, 3]);
    let b = Attribute::new("b", vec![10i32, 20]);
    let r = a.zip_map(&b, |&x, &y| x + y);
    assert!(r.is_err());
    let msg = r.err().unwrap();
    assert_eq!(msg, "Attribute length mismatch: a has 3, b has 2");
}

#[test]
fn set_writes_in_range_and_rejects_out_of_range() {
    let mut a = Attribute::new("ids", vec![1i32, 2, 3]);
    assert!(a.set(1, 7).is_ok());
    assert_eq!(a.data, vec![1, 7, 3]);
    assert_eq!(a.set(3, 9), Err("Index 3 out of bounds (len: 3)".to_string()));
    assert_eq!(a.data, vec![1, 7, 3]);
    assert_eq!(a.get(2), Some(&3));
    assert_eq!(a.get(3), None);
}

#[test]
fn scope_can_be_chosen() {
    let a = Attribute::new_with_scope("Cd", vec![0i32, 0], AttributeScope::Primitive);
    assert_eq!(a.scope, AttributeScope::Primitive);
    let b = Attribute::new("w", vec![5i32]).with_scope(AttributeScope::Vertex);
    assert_eq!(b.scope, AttributeScope::Vertex);
    assert!(!b.is_empty());
    assert!(Attribute::<i32>::new("e", vec![]).is_empty());
}
