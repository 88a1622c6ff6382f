use octomap::geometry::KeyGeometry;
use octomap::io::{
    check_tree_type, pack_descriptor, read_binary_body, read_binary_data, read_binary_node,
    read_exact, read_full_body, read_full_data, read_full_node, read_header, read_line,
    read_marker, read_optional_byte, write_binary_data, write_full_data, write_header,
    ByteReader, CellState, FormatError, BINARY_FILE_HEADER, FULL_FILE_HEADER,
};
use octomap::key::OcTreeKey;
use octomap::node::Node;
use octomap::tree::OctreeCore;

const LIMIT: u32 = 16;

/// A tree of 32-bit values spread over a few branches.
fn scene() -> Node<u32> {
    let mut tree: OctreeCore<u32> = OctreeCore::with_geometry(KeyGeometry::new());
    for i in 0..12u16 {
        tree.insert(OcTreeKey::new(32768 + i, 32768, 32768), 0x3f80_0000 + u32::from(i));
    }
    tree.insert(OcTreeKey::new(32778, 32778, 32778), 0xbf80_0000);
    tree.insert(OcTreeKey::new(32748, 32771, 32772), 0x4040_0000);
    tree.root().unwrap().map_values(&|v: &u32| *v)
}

/// The same shape with every leaf marked occupied when its value is odd.
fn occupancy_scene() -> Node<bool> {
    scene().map_values(&|v: &u32| v % 2 == 1)
}

fn header(marker: &str, size: usize) -> Vec<u8> {
    let mut out = Vec::new();
    write_header(&mut out, marker, size, "0.1");
    out
}

#[test]
fn descriptor_packing_uses_the_reference_bit_order() {
    let mut node = Node::new(false);
    node.create_child(0, false);
    node.create_child(1, true);
    node.create_child(3, false);
    node.child_mut(3).unwrap().expand();

    let byte = pack_descriptor(&node, 0);
    assert_eq!(byte, 0b1100_1001, "got {byte:08b}");
}

#[test]
fn full_data_round_trips_without_a_header() {
    let tree = scene();
    let mut buffer = Vec::new();
    write_full_data(Some(&tree), &mut buffer);

    let back = read_full_data(&buffer, LIMIT).unwrap().unwrap();
    assert_eq!(back.subtree_size(), tree.subtree_size());
    assert_eq!(back, tree);
}

#[test]
fn binary_data_round_trips_without_a_header() {
    let tree = occupancy_scene();
    let mut buffer = Vec::new();
    write_binary_data(Some(&tree), &mut buffer);

    let back = read_binary_data(&buffer, LIMIT).unwrap().unwrap();
    assert_eq!(back.subtree_size(), tree.subtree_size());
    assert_eq!(back.leaf_count(), tree.leaf_count());
    fn same_leaves(a: &Node<bool>, b: &Node<CellState>) {
        for i in 0..8u8 {
            match (a.child(i), b.child(i)) {
                (None, None) => {}
                (Some(x), Some(y)) => {
                    if x.has_children() {
                        same_leaves(x, y);
                    } else {
                        let want = if *x.value() { CellState::Occupied } else { CellState::Free };
                        assert_eq!(y.value(), &want);
                    }
                }
                _ => panic!("shape differs at slot {i}"),
            }
        }
    }
    same_leaves(&tree, &back);
}

#[test]
fn an_empty_payload_decodes_to_an_empty_map() {
    assert_eq!(read_full_data(&[], LIMIT).unwrap(), None);
    assert!(read_binary_data(&[], LIMIT).unwrap().is_none());
}

#[test]
fn a_truncated_payload_is_rejected_rather_than_half_decoded() {
    let tree = scene();
    let mut buffer = Vec::new();
    write_full_data(Some(&tree), &mut buffer);
    buffer.truncate(buffer.len() - 1);

    assert_eq!(read_full_data(&buffer, LIMIT), Err(FormatError::UnexpectedEof));
}

#[test]
fn a_headerless_payload_is_the_tail_of_the_file_with_a_header() {
    let tree = scene();
    let mut with_header = header(FULL_FILE_HEADER, tree.subtree_size());
    write_full_data(Some(&tree), &mut with_header);
    let mut without = Vec::new();
    write_full_data(Some(&tree), &mut without);

    assert!(with_header.ends_with(&without));
    assert_eq!(
        with_header.len() - without.len(),
        with_header.windows(5).position(|w| w == b"data\n").unwrap() + 5
    );
}

#[test]
fn the_header_is_written_in_the_reference_layout() {
    let text = String::from_utf8(header(FULL_FILE_HEADER, 0)).unwrap();
    let lines: Vec<_> = text.lines().collect();
    assert_eq!(lines[0], FULL_FILE_HEADER);
    assert_eq!(lines[3], "id OcTree");
    assert_eq!(lines[4], "size 0");
    assert_eq!(lines[5], "res 0.1");
    assert_eq!(lines[6], "data");
}

#[test]
fn a_wrong_first_line_is_rejected() {
    let bad = b"# Not an octomap file\nid OcTree\nsize 0\nres 0.1\ndata\n";
    assert_eq!(
        read_marker(&mut ByteReader::new(bad), FULL_FILE_HEADER),
        Err(FormatError::BadHeader { expected: FULL_FILE_HEADER })
    );
    assert_eq!(
        read_marker(&mut ByteReader::new(bad), BINARY_FILE_HEADER),
        Err(FormatError::BadHeader { expected: BINARY_FILE_HEADER })
    );
}

#[test]
fn a_binary_file_is_not_accepted_as_a_full_file() {
    let data = header(BINARY_FILE_HEADER, 1);
    assert!(matches!(
        read_marker(&mut ByteReader::new(&data), FULL_FILE_HEADER),
        Err(FormatError::BadHeader { .. })
    ));
    assert!(read_marker(&mut ByteReader::new(&data), BINARY_FILE_HEADER).is_ok());
}

#[test]
fn a_header_without_data_is_rejected() {
    let bad = format!("{FULL_FILE_HEADER}\nid OcTree\nsize 1\nres 0.1\n");
    let mut reader = ByteReader::new(bad.as_bytes());
    read_marker(&mut reader, FULL_FILE_HEADER).unwrap();
    assert_eq!(read_header(&mut reader), Err(FormatError::UnterminatedHeader));
}

#[test]
fn a_missing_field_is_reported_rather_than_guessed() {
    let no_res = format!("{FULL_FILE_HEADER}\nid OcTree\nsize 0\ndata\n");
    let mut reader = ByteReader::new(no_res.as_bytes());
    read_marker(&mut reader, FULL_FILE_HEADER).unwrap();
    let h = read_header(&mut reader).unwrap();
    assert_eq!(h.res, None, "no resolution token to read");

    let no_id = format!("{FULL_FILE_HEADER}\nsize 0\nres 0.1\ndata\n");
    let mut reader = ByteReader::new(no_id.as_bytes());
    read_marker(&mut reader, FULL_FILE_HEADER).unwrap();
    assert_eq!(read_header(&mut reader), Err(FormatError::MissingField("id")));

    let no_size = format!("{FULL_FILE_HEADER}\nid OcTree\nres 0.1\ndata\n");
    let mut reader = ByteReader::new(no_size.as_bytes());
    read_marker(&mut reader, FULL_FILE_HEADER).unwrap();
    assert_eq!(read_header(&mut reader), Err(FormatError::MissingField("size")));
}

#[test]
fn an_unknown_tree_type_is_rejected() {
    let bad = format!("{FULL_FILE_HEADER}\nid ColorOcTree\nsize 0\nres 0.1\ndata\n");
    let mut reader = ByteReader::new(bad.as_bytes());
    read_marker(&mut reader, FULL_FILE_HEADER).unwrap();
    let h = read_header(&mut reader).unwrap();
    assert_eq!(
        check_tree_type(&h.id),
        Err(FormatError::UnsupportedTreeType(b"ColorOcTree".to_vec()))
    );
    assert_eq!(check_tree_type(b"OcTree"), Ok(()));
}

#[test]
fn unknown_header_keywords_are_skipped_like_the_reference() {
    let extra = format!(
        "{FULL_FILE_HEADER}\n# a comment\nsomething unexpected\nid OcTree\nsize 0\nres 0.1\ndata\n"
    );
    let mut reader = ByteReader::new(extra.as_bytes());
    read_marker(&mut reader, FULL_FILE_HEADER).unwrap();
    let h = read_header(&mut reader).unwrap();
    assert_eq!(h.id, b"OcTree".to_vec());
    assert_eq!(h.size, 0);
    assert_eq!(h.res, Some(b"0.1".to_vec()));
    assert_eq!(reader.position(), extra.len());
}

#[test]
fn header_tokens_are_split_on_any_white_space() {
    let text = "id\tOcTree  trailing\n  size \u{00a0}+42\r\nres\u{3000}0.05\ndata\n";
    let mut reader = ByteReader::new(text.as_bytes());
    let h = read_header(&mut reader).unwrap();
    assert_eq!(h.id, b"OcTree".to_vec());
    assert_eq!(h.size, 42);
    assert_eq!(h.res, Some(b"0.05".to_vec()));
}

#[test]
fn a_size_that_is_not_a_number_counts_as_missing() {
    let text = "id OcTree\nsize 12x\nres 0.1\ndata\n";
    assert_eq!(
        read_header(&mut ByteReader::new(text.as_bytes())),
        Err(FormatError::MissingField("size"))
    );
    let huge = "id OcTree\nsize 99999999999999999999999\nres 0.1\ndata\n";
    assert_eq!(
        read_header(&mut ByteReader::new(huge.as_bytes())),
        Err(FormatError::MissingField("size"))
    );
}

#[test]
fn a_truncated_payload_is_reported_rather_than_panicking() {
    let tree = scene();
    let mut buffer = header(FULL_FILE_HEADER, tree.subtree_size());
    write_full_data(Some(&tree), &mut buffer);
    buffer.truncate(buffer.len() - 5);

    let mut reader = ByteReader::new(&buffer);
    read_marker(&mut reader, FULL_FILE_HEADER).unwrap();
    let h = read_header(&mut reader).unwrap();
    assert_eq!(read_full_body(&mut reader, h.size, LIMIT), Err(FormatError::UnexpectedEof));
}

#[test]
fn a_size_mismatch_is_reported() {
    let tree = scene();
    let mut buffer = header(FULL_FILE_HEADER, 999_999);
    write_full_data(Some(&tree), &mut buffer);

    let mut reader = ByteReader::new(&buffer);
    read_marker(&mut reader, FULL_FILE_HEADER).unwrap();
    let h = read_header(&mut reader).unwrap();
    assert_eq!(
        read_full_body(&mut reader, h.size, LIMIT),
        Err(FormatError::SizeMismatch { declared: 999_999, actual: tree.subtree_size() })
    );
}

#[test]
fn a_full_file_round_trips_through_the_body_reader() {
    let tree = scene();
    let mut buffer = header(FULL_FILE_HEADER, tree.subtree_size());
    write_full_data(Some(&tree), &mut buffer);

    let mut reader = ByteReader::new(&buffer);
    read_marker(&mut reader, FULL_FILE_HEADER).unwrap();
    let h = read_header(&mut reader).unwrap();
    check_tree_type(&h.id).unwrap();
    let back = read_full_body(&mut reader, h.size, LIMIT).unwrap().unwrap();
    assert_eq!(back, tree);
    assert_eq!(reader.position(), buffer.len());
}

#[test]
fn an_empty_tree_round_trips() {
    let buffer = header(FULL_FILE_HEADER, 0);
    let mut reader = ByteReader::new(&buffer);
    read_marker(&mut reader, FULL_FILE_HEADER).unwrap();
    let h = read_header(&mut reader).unwrap();
    assert_eq!(read_full_body(&mut reader, h.size, LIMIT), Ok(None));
}

#[test]
fn a_binary_file_round_trips_through_the_body_reader() {
    let tree = occupancy_scene();
    let mut buffer = header(BINARY_FILE_HEADER, tree.subtree_size());
    write_binary_data(Some(&tree), &mut buffer);

    let mut reader = ByteReader::new(&buffer);
    read_marker(&mut reader, BINARY_FILE_HEADER).unwrap();
    let h = read_header(&mut reader).unwrap();
    let back = read_binary_body(&mut reader, h.size, LIMIT).unwrap().unwrap();
    assert_eq!(back.subtree_size(), tree.subtree_size());
    assert_eq!(back.value(), &CellState::Occupied, "the root reads back occupied");
}

#[test]
fn an_endlessly_nesting_payload_is_refused_instead_of_overflowing_the_stack() {
    let mut data = format!("{BINARY_FILE_HEADER}\nid OcTree\nsize 1\nres 0.1\ndata\n").into_bytes();
    for _ in 0..2000 {
        data.extend_from_slice(&[0b0000_0011, 0]);
    }
    let mut reader = ByteReader::new(&data);
    read_marker(&mut reader, BINARY_FILE_HEADER).unwrap();
    let h = read_header(&mut reader).unwrap();
    assert_eq!(
        read_binary_body(&mut reader, h.size, LIMIT),
        Err(FormatError::TooDeep { limit: LIMIT })
    );
}

#[test]
fn random_bytes_after_a_valid_header_never_panic() {
    let mut seed = 0x2545_F491_4F6C_DD1Du64;
    for _ in 0..200 {
        let mut payload = Vec::new();
        for _ in 0..64 {
            seed ^= seed << 13;
            seed ^= seed >> 7;
            seed ^= seed << 17;
            payload.push((seed >> 24) as u8);
        }
        let _ = read_binary_body(&mut ByteReader::new(&payload), 5, LIMIT);
        let _ = read_full_body(&mut ByteReader::new(&payload), 5, LIMIT);
        let _ = read_binary_data(&payload, LIMIT);
        let _ = read_full_data(&payload, LIMIT);
    }
}

#[test]
fn an_inner_node_takes_the_largest_value_below_it() {
    // Root: child 0 inner. Child 0: child 0 free, child 5 occupied.
    let data = [0b0000_0011u8, 0, 0b0000_0001, 0b0000_1000];
    let node = read_binary_node(&mut ByteReader::new(&data), 0, LIMIT).unwrap();
    let inner = node.child(0).unwrap();
    assert_eq!(inner.value(), &CellState::Occupied);
    assert_eq!(inner.child(0).unwrap().value(), &CellState::Free);
    assert_eq!(inner.child(5).unwrap().value(), &CellState::Occupied);

    // An inner node announced with no children holds nothing.
    let data = [0b0000_0011u8, 0, 0, 0];
    let node = read_binary_node(&mut ByteReader::new(&data), 0, LIMIT).unwrap();
    assert_eq!(node.child(0).unwrap().value(), &CellState::Unset);
}

#[test]
fn a_full_node_is_its_value_its_mask_and_its_children() {
    let mut node = Node::new(0x0102_0304u32);
    node.create_child(2, 0xAABB_CCDD);
    let mut out = Vec::new();
    write_full_data(Some(&node), &mut out);
    assert_eq!(out, vec![4, 3, 2, 1, 0b0000_0100, 0xDD, 0xCC, 0xBB, 0xAA, 0]);
    let back = read_full_node(&mut ByteReader::new(&out), 0, LIMIT).unwrap();
    assert_eq!(back, node);
    assert_eq!(
        read_full_node(&mut ByteReader::new(&out), 17, LIMIT),
        Err(FormatError::TooDeep { limit: LIMIT })
    );
}

#[test]
fn the_byte_reader_reads_lines_and_exact_counts() {
    let data = b"first\r\nsecond\nlast";
    let mut r = ByteReader::new(data);
    assert_eq!(read_line(&mut r), Some(b"first".to_vec()));
    assert_eq!(read_line(&mut r), Some(b"second".to_vec()));
    assert_eq!(read_exact(&mut r, 9), Err(FormatError::UnexpectedEof));
    assert_eq!(read_exact(&mut r, 2).unwrap(), b"la");
    assert_eq!(read_optional_byte(&mut r), Some(b's'));
    assert_eq!(read_line(&mut r), Some(b"t".to_vec()));
    assert_eq!(read_line(&mut r), None);
    assert_eq!(read_optional_byte(&mut r), None);
}

#[test]
fn writing_an_empty_map_writes_nothing() {
    let mut out = Vec::new();
    write_full_data(None, &mut out);
    write_binary_data(None, &mut out);
    assert!(out.is_empty());
}

#[test]
fn a_binary_size_mismatch_reports_the_count_actually_decoded() {
    let tree = occupancy_scene();
    let declared = tree.subtree_size() + 1;
    let mut buffer = header(BINARY_FILE_HEADER, declared);
    write_binary_data(Some(&tree), &mut buffer);

    let mut reader = ByteReader::new(&buffer);
    read_marker(&mut reader, BINARY_FILE_HEADER).unwrap();
    let h = read_header(&mut reader).unwrap();
    let decoded = {
        let mut probe = ByteReader::new(&buffer[reader.position()..]);
        read_binary_node(&mut probe, 0, LIMIT).unwrap().subtree_size()
    };
    assert_eq!(
        read_binary_body(&mut reader, h.size, LIMIT),
        Err(FormatError::SizeMismatch { declared, actual: decoded })
    );
}
