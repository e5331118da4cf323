use bevy_dcc::usd_loader::count_sum_fits;
use bevy_dcc::usdz::{find_layer_entry, UsdzEntry};

fn entry(name: &str, data: &[u8]) -> Vec<u8> {
    let mut h = vec![0u8; 30];
    h[0..4].copy_from_slice(b"PK\x03\x04");
    let size = (data.len() as u32).to_le_bytes();
    h[18..22].copy_from_slice(&size);
    h[26..28].copy_from_slice(&(name.len() as u16).to_le_bytes());
    h.extend_from_slice(name.as_bytes());
    h.extend_from_slice(data);
    h
}

#[test]
fn the_first_layer_entry_is_found() {
    let mut bytes = entry("tex.png", b"abc");
    let start = bytes.len();
    bytes.extend(entry("Scene.USDA", b"#usda 1.0"));
    bytes.extend(entry("other.usdc", b"x"));
    let e = find_layer_entry(&bytes).unwrap();
    assert_eq!(&bytes[e.name_start..e.name_end], b"Scene.USDA");
    assert_eq!(&bytes[e.data_start..e.data_end], b"#usda 1.0");
    assert_eq!(e, UsdzEntry { name_start: start + 30, name_end: start + 40, data_start: start + 40, data_end: start + 49 });
}

#[test]
fn packages_without_a_layer_have_none() {
    let bytes = entry("readme.txt", b"hello there, this is not a layer");
    assert_eq!(find_layer_entry(&bytes), None);
    assert_eq!(find_layer_entry(&vec![0u8; 10]), None);
}

#[test]
fn face_count_sums_are_checked() {
    assert!(count_sum_fits(&vec![3, 4, 5]));
    assert!(!count_sum_fits(&vec![usize::MAX, 1]));
}
