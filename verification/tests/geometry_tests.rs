use octomap::geometry::{InvalidDepth, KeyGeometry, DEFAULT_TREE_DEPTH, DEFAULT_TREE_MAX_VAL};
use octomap::key::OcTreeKey;

fn geom() -> KeyGeometry {
    KeyGeometry::new()
}

#[test]
fn adjust_key_at_depth_snaps_to_the_containing_voxel() {
    let g = geom();
    let a = g.adjust_key_axis_at_depth(32768, 15).unwrap();
    let b = g.adjust_key_axis_at_depth(32769, 15).unwrap();
    assert_eq!(a, b, "neighbouring keys must share a parent at depth 15");

    assert_eq!(g.adjust_key_axis_at_depth(12345, 16).unwrap(), 12345);
}

#[test]
fn adjust_key_at_depth_is_idempotent() {
    let g = geom();
    for depth in 1..=16u32 {
        for raw in [0u16, 1, 32767, 32768, 40000, 65535] {
            let once = g.adjust_key_axis_at_depth(raw, depth).unwrap();
            let twice = g.adjust_key_axis_at_depth(once, depth).unwrap();
            assert_eq!(once, twice, "depth {depth}, key {raw}");
        }
    }
}

#[test]
fn depth_beyond_tree_depth_is_an_error() {
    let g = geom();
    assert_eq!(
        g.adjust_key_axis_at_depth(0, 17).unwrap_err(),
        InvalidDepth { got: 17, tree_depth: 16 }
    );
    assert!(g.adjust_key_at_depth(OcTreeKey::new(0, 0, 0), 17).is_err());
    assert_eq!(g.validate_depth(17), Err(InvalidDepth { got: 17, tree_depth: 16 }));
    assert_eq!(g.validate_depth(16), Ok(()));
}

#[test]
fn the_stock_geometry_is_sixteen_levels_deep() {
    let g = geom();
    assert_eq!(g.tree_depth(), DEFAULT_TREE_DEPTH);
    assert_eq!(g.tree_max_val(), DEFAULT_TREE_MAX_VAL);
}

#[test]
fn snapping_moves_a_key_to_the_middle_of_its_block() {
    let g = geom();
    // Depth 14 blocks are four cells wide; the block holding 32770 starts
    // at 32768 and is addressed by 32768 + 2.
    assert_eq!(g.adjust_key_axis_at_depth(32770, 14).unwrap(), 32770);
    assert_eq!(g.adjust_key_axis_at_depth(32771, 14).unwrap(), 32770);
    assert_eq!(g.adjust_key_axis_at_depth(32767, 14).unwrap(), 32766);
    // At the root every key falls into the one block around the origin.
    assert_eq!(g.adjust_key_axis_at_depth(0, 0).unwrap(), 0);
    assert_eq!(g.adjust_key_axis_at_depth(65535, 0).unwrap(), 0);
    let k = g.adjust_key_at_depth(OcTreeKey::new(32771, 32767, 32768), 14).unwrap();
    assert_eq!(k, OcTreeKey::new(32770, 32766, 32770));
}

#[test]
fn the_origin_voxel_is_tree_max_val() {
    let g = geom();
    assert_eq!(g.key_from_offset(0), 32768);
    assert_eq!(g.key_from_offset(-1), 32767);
    assert_eq!(g.key_from_offset(12), 32780);
    // Without a bounds check the key wraps around the 16-bit range.
    assert_eq!(g.key_from_offset(32768), 0);
    assert_eq!(g.key_from_offset(i64::MIN), 32768);
}

#[test]
fn checked_keys_reject_offsets_outside_the_volume() {
    let g = geom();
    assert_eq!(g.checked_key_from_offset(-32768), Some(0));
    assert_eq!(g.checked_key_from_offset(32767), Some(65535));
    assert_eq!(g.checked_key_from_offset(32768), None);
    assert_eq!(g.checked_key_from_offset(-32769), None);
    assert_eq!(g.checked_key_from_offset(i64::MAX), None);
}

#[test]
fn key_at_depth_agrees_with_adjusting_the_bottom_key() {
    let g = geom();
    for depth in 0..=16u32 {
        for offset in [0i64, 1, -1, 12, -12, 555, -3003, 32767, -32768, 40000, i64::MAX, i64::MIN] {
            let direct = g.key_from_offset_at_depth(offset, depth).unwrap();
            let via_adjust = g.adjust_key_axis_at_depth(g.key_from_offset(offset), depth).unwrap();
            assert_eq!(direct, via_adjust, "depth {depth}, offset {offset}");
        }
    }
    assert_eq!(g.key_from_offset_at_depth(3, 14).unwrap(), 32770);
    assert!(g.key_from_offset_at_depth(0, 17).is_err());
}
