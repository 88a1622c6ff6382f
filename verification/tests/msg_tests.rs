use octomap::geometry::KeyGeometry;
use octomap::io::{read_binary_data, write_binary_data, CellState};
use octomap::key::OcTreeKey;
use octomap::msg::{from_i8, supported_tree_id, to_i8, TREE_ID};
use octomap::tree::OctreeCore;

/// A binary payload with at least one byte above 127.
fn payload() -> Vec<u8> {
    let mut tree: OctreeCore<bool> = OctreeCore::with_geometry(KeyGeometry::new());
    for i in 0..8u16 {
        tree.insert(OcTreeKey::new(32768 + i, 32768 + i, 32768), i % 2 == 0);
    }
    let mut out = Vec::new();
    write_binary_data(tree.root(), &mut out);
    out
}

#[test]
fn an_unimplemented_tree_class_is_refused_by_name() {
    assert!(!supported_tree_id("ColorOcTree"));
    assert!(!supported_tree_id("OcTreeStamped"));
    assert!(!supported_tree_id(""));
    assert!(supported_tree_id(TREE_ID));
    assert!(supported_tree_id("OcTree"));
}

#[test]
fn signed_and_unsigned_views_of_the_payload_hold_the_same_bits() {
    let bytes = payload();

    let signed = to_i8(&bytes);
    assert_eq!(from_i8(&signed), bytes);
    assert_eq!(signed.len(), bytes.len());
    assert!(bytes.iter().any(|&b| b > 127), "test needs a high byte");
}

#[test]
fn a_byte_is_reinterpreted_not_converted() {
    assert_eq!(to_i8(&[0, 1, 127, 128, 255]), vec![0, 1, 127, -128, -1]);
    assert_eq!(from_i8(&[0, 1, 127, -128, -1]), vec![0, 1, 127, 128, 255]);
}

#[test]
fn a_payload_decodes_back_after_the_sign_round_trip() {
    let bytes = payload();
    let back = from_i8(&to_i8(&bytes));
    let decoded = read_binary_data(&back, 16).unwrap().unwrap();
    let mut occupied = 0;
    let mut stack = vec![&decoded];
    while let Some(n) = stack.pop() {
        if !n.has_children() && *n.value() == CellState::Occupied {
            occupied += 1;
        }
        for (_, c) in n.children_iter() {
            stack.push(c);
        }
    }
    assert_eq!(occupied, 4);
}
