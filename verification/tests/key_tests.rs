use octomap::key::{compute_child_index, compute_child_key, compute_index_key, KeyRay, OcTreeKey};

#[test]
fn reference_hash_matches_cpp_formula() {
    let key = OcTreeKey::new(3, 5, 7);
    assert_eq!(key.reference_hash(), 3 + 1447 * 5 + 345_637 * 7);
}

#[test]
fn child_index_reads_one_bit_per_axis() {
    assert_eq!(compute_child_index(&OcTreeKey::new(0, 0, 0), 0), 0);
    assert_eq!(compute_child_index(&OcTreeKey::new(1, 0, 0), 0), 1);
    assert_eq!(compute_child_index(&OcTreeKey::new(0, 1, 0), 0), 2);
    assert_eq!(compute_child_index(&OcTreeKey::new(0, 0, 1), 0), 4);
    assert_eq!(compute_child_index(&OcTreeKey::new(1, 1, 1), 0), 7);

    assert_eq!(compute_child_index(&OcTreeKey::new(0b0111, 0, 0), 3), 0);
    assert_eq!(compute_child_index(&OcTreeKey::new(0b1000, 0, 0), 3), 1);
}

#[test]
fn child_key_offsets_each_axis_by_half_extent() {
    let parent = OcTreeKey::new(100, 100, 100);
    assert_eq!(compute_child_key(0, 8, &parent), OcTreeKey::new(92, 92, 92));
    assert_eq!(compute_child_key(7, 8, &parent), OcTreeKey::new(108, 108, 108));
    assert_eq!(compute_child_key(0b101, 8, &parent), OcTreeKey::new(108, 92, 108));
}

#[test]
fn zero_offset_child_key_still_separates_the_two_halves() {
    let parent = OcTreeKey::new(100, 100, 100);
    assert_eq!(compute_child_key(0, 0, &parent), OcTreeKey::new(99, 99, 99));
    assert_eq!(compute_child_key(7, 0, &parent), OcTreeKey::new(100, 100, 100));
}

#[test]
fn index_key_clears_low_bits_up_to_level() {
    let key = OcTreeKey::new(0b1011, 0b1111, 0b0001);
    assert_eq!(compute_index_key(0, &key), key);
    assert_eq!(compute_index_key(2, &key), OcTreeKey::new(0b1000, 0b1100, 0b0000));
}

#[test]
fn key_ray_refuses_to_grow_past_the_reference_limit() {
    let mut ray = KeyRay::new();
    assert!(ray.is_empty());
    assert!(ray.push(OcTreeKey::new(1, 2, 3)));
    assert_eq!(ray.len(), 1);
    assert_eq!(ray.as_slice(), &[OcTreeKey::new(1, 2, 3)]);

    ray.clear();
    assert!(ray.is_empty());
}

#[test]
fn child_keys_wrap_at_the_edge_of_the_key_range() {
    let parent = OcTreeKey::new(65535, 0, 65535);
    assert_eq!(compute_child_key(0b101, 1, &parent), OcTreeKey::new(0, 65535, 0));
}

#[test]
fn key_accessors_return_each_axis() {
    let key = OcTreeKey::new(4, 5, 6);
    assert_eq!((key.x(), key.y(), key.z()), (4, 5, 6));
}

#[test]
fn a_key_ray_stops_growing_at_its_limit() {
    let mut ray = KeyRay::with_reference_capacity();
    let mut pushed = 0usize;
    while ray.push(OcTreeKey::new(1, 1, 1)) {
        pushed += 1;
    }
    assert_eq!(pushed, octomap::key::KEY_RAY_MAX_SIZE);
    assert_eq!(ray.len(), octomap::key::KEY_RAY_MAX_SIZE);
    assert_eq!(ray.iter().count(), octomap::key::KEY_RAY_MAX_SIZE);
}

#[test]
fn descending_from_a_center_key_selects_the_child_it_was_asked_for() {
    // Children at level 3 are told apart by bit 3; a center key there has
    // bit 3 set and bits 0..3 clear, and the child offset is 4.
    let parent = OcTreeKey::new(5 * 16 + 8, 2 * 16 + 8, 7 * 16 + 8);
    for pos in 0..8u8 {
        let child = compute_child_key(pos, 4, &parent);
        assert_eq!(compute_child_index(&child, 3), pos);
        for axis in 0..3 {
            let expected = if pos & (1 << axis) != 0 { parent.k[axis] + 4 } else { parent.k[axis] - 4 };
            assert_eq!(child.k[axis], expected);
        }
    }
    // At the bottom the offset is zero and the lower half steps down by one.
    let bottom = OcTreeKey::new(33, 35, 1);
    for pos in 0..8u8 {
        let child = compute_child_key(pos, 0, &bottom);
        assert_eq!(compute_child_index(&child, 0), pos);
    }
}
