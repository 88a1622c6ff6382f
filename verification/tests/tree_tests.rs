use octomap::geometry::KeyGeometry;
use octomap::key::OcTreeKey;
use octomap::tree::{LeafIter, OctreeCore, TreeIter, Visit};

fn tree() -> OctreeCore<u8> {
    OctreeCore::with_geometry(KeyGeometry::new())
}

fn key(x: u16, y: u16, z: u16) -> OcTreeKey {
    OcTreeKey::new(x, y, z)
}

fn count_nodes_visited(mut it: TreeIter<'_, u8>) -> usize {
    let mut n = 0;
    while it.next().is_some() {
        n += 1;
    }
    n
}

fn leaves<'a>(mut it: LeafIter<'a, u8>) -> Vec<Visit<'a, u8>> {
    let mut out = Vec::new();
    while let Some(v) = it.next() {
        out.push(v);
    }
    out
}

fn fill_block(t: &mut OctreeCore<u8>, base: OcTreeKey, value: u8) {
    for dx in 0..2u16 {
        for dy in 0..2u16 {
            for dz in 0..2u16 {
                t.insert(key(base.x() + dx, base.y() + dy, base.z() + dz), value);
            }
        }
    }
}

#[test]
fn a_new_tree_is_empty() {
    let t = tree();
    assert!(t.is_empty());
    assert_eq!(t.len(), 0);
    assert_eq!(t.count_nodes(), 0);
    assert_eq!(t.count_leaf_nodes(), 0);
    assert!(t.root().is_none());
    assert_eq!(count_nodes_visited(t.iter_nodes()), 0);
    assert_eq!(leaves(t.iter_leaves()).len(), 0);
}

#[test]
fn insert_creates_the_full_path_to_the_leaf() {
    let mut t = tree();
    t.insert(key(32768, 32768, 32768), 42);

    assert_eq!(t.len(), 1 + t.geometry().tree_depth() as usize);
    assert_eq!(t.len(), t.count_nodes(), "incremental count drifted");
    assert_eq!(t.count_leaf_nodes(), 1);
    assert_eq!(t.get(key(32768, 32768, 32768)), Some(&42));
}

#[test]
fn inserting_the_same_key_twice_reuses_the_path() {
    let mut t = tree();
    t.insert(key(1, 2, 3), 1);
    let after_first = t.len();
    t.insert(key(1, 2, 3), 2);

    assert_eq!(t.len(), after_first, "no new nodes for a repeat insert");
    assert_eq!(t.get(key(1, 2, 3)), Some(&2), "value must be overwritten");
}

#[test]
fn sibling_keys_share_their_ancestors() {
    let mut t = tree();
    t.insert(key(32768, 32768, 32768), 1);
    let after_first = t.len();
    t.insert(key(32769, 32768, 32768), 2);

    assert_eq!(t.len(), after_first + 1);
    assert_eq!(t.count_nodes(), t.len());
}

#[test]
fn search_misses_return_none() {
    let mut t = tree();
    t.insert(key(100, 100, 100), 7);
    assert_eq!(t.get(key(200, 200, 200)), None);
}

#[test]
fn search_inside_a_pruned_block_returns_the_covering_leaf() {
    let mut t = tree();
    let base = key(32768, 32768, 32768);
    fill_block(&mut t, base, 5);
    assert_eq!(t.prune(), 8, "the eight equal leaves should merge");

    for dx in 0..2u16 {
        for dy in 0..2u16 {
            for dz in 0..2u16 {
                let k = key(base.x() + dx, base.y() + dy, base.z() + dz);
                assert_eq!(t.get(k), Some(&5), "pruned block must still cover {k:?}");
            }
        }
    }
}

#[test]
fn prune_then_expand_restores_the_node_count() {
    let mut t = tree();
    let base = key(32768, 32768, 32768);
    fill_block(&mut t, base, 5);
    let before = t.len();

    let removed = t.prune();
    assert_eq!(t.len(), before - removed);
    assert_eq!(t.count_nodes(), t.len());

    let created = t.expand_to_depth(t.geometry().tree_depth());
    assert_eq!(created, removed, "expansion should undo the merge");
    assert_eq!(t.len(), before);
    assert_eq!(t.count_nodes(), t.len());
}

#[test]
fn prune_leaves_unequal_siblings_alone() {
    let mut t = tree();
    let base = key(32768, 32768, 32768);
    let mut n = 0u8;
    for dx in 0..2u16 {
        for dy in 0..2u16 {
            for dz in 0..2u16 {
                n += 1;
                t.insert(key(base.x() + dx, base.y() + dy, base.z() + dz), n);
            }
        }
    }
    let before = t.len();
    assert_eq!(t.prune(), 0, "differing values must not merge");
    assert_eq!(t.len(), before);
}

#[test]
fn delete_removes_the_node_and_its_now_empty_ancestors() {
    let mut t = tree();
    t.insert(key(1, 2, 3), 9);
    assert!(t.delete(key(1, 2, 3)));

    assert!(t.is_empty(), "the last leaf going away empties the tree");
    assert_eq!(t.len(), 0);
    assert_eq!(t.count_nodes(), 0);
}

#[test]
fn delete_keeps_ancestors_that_still_have_children() {
    let mut t = tree();
    t.insert(key(32768, 32768, 32768), 1);
    t.insert(key(32769, 32768, 32768), 2);

    assert!(t.delete(key(32768, 32768, 32768)));
    assert!(!t.is_empty());
    assert_eq!(t.get(key(32769, 32768, 32768)), Some(&2), "sibling survives");
    assert_eq!(t.get(key(32768, 32768, 32768)), None);
    assert_eq!(t.count_nodes(), t.len(), "count drifted after delete");
}

#[test]
fn deleting_a_missing_key_reports_nothing_removed() {
    let mut t = tree();
    t.insert(key(1, 2, 3), 9);
    let before = t.len();
    assert!(!t.delete(key(500, 600, 700)));
    assert_eq!(t.len(), before);
}

#[test]
fn deleting_from_an_empty_tree_is_harmless() {
    let mut t = tree();
    assert!(!t.delete(key(1, 2, 3)));
    assert!(t.is_empty());
}

#[test]
fn deleting_one_voxel_from_a_pruned_block_keeps_the_other_seven() {
    let mut t = tree();
    let base = key(32768, 32768, 32768);
    fill_block(&mut t, base, 5);
    t.prune();

    assert!(t.delete(base));
    assert_eq!(t.get(base), None, "the deleted voxel is gone");

    let mut survivors = 0;
    for dx in 0..2u16 {
        for dy in 0..2u16 {
            for dz in 0..2u16 {
                let k = key(base.x() + dx, base.y() + dy, base.z() + dz);
                if k != base && t.get(k) == Some(&5) {
                    survivors += 1;
                }
            }
        }
    }
    assert_eq!(survivors, 7, "the rest of the block must survive");
    assert_eq!(t.count_nodes(), t.len(), "count drifted after re-expansion");
}

#[test]
fn clear_empties_the_tree() {
    let mut t = tree();
    t.insert(key(1, 2, 3), 1);
    t.clear();
    assert!(t.is_empty());
    assert_eq!(t.len(), 0);
}

#[test]
fn iterating_nodes_visits_every_node_once() {
    let mut t = tree();
    t.insert(key(32768, 32768, 32768), 1);
    t.insert(key(32769, 32768, 32768), 2);

    assert_eq!(count_nodes_visited(t.iter_nodes()), t.len());
}

#[test]
fn iterating_leaves_visits_only_leaves() {
    let mut t = tree();
    t.insert(key(32768, 32768, 32768), 1);
    t.insert(key(32769, 32768, 32768), 2);

    let found = leaves(t.iter_leaves());
    assert_eq!(found.len(), 2);
    assert_eq!(found.len(), t.count_leaf_nodes());
    for leaf in &found {
        assert!(!leaf.node().has_children());
        assert_eq!(leaf.depth(), t.geometry().tree_depth());
    }
}

#[test]
fn leaf_iteration_reports_the_key_that_was_inserted() {
    let mut t = tree();
    let inserted = key(32768, 32770, 32771);
    t.insert(inserted, 1);

    let found = leaves(t.iter_leaves());
    assert_eq!(found.len(), 1);
    assert_eq!(
        found[0].key(),
        inserted,
        "the key rebuilt during descent must match the one inserted"
    );
}

#[test]
fn depth_limited_iteration_reports_inner_nodes_as_leaves() {
    let mut t = tree();
    t.insert(key(32768, 32768, 32768), 1);
    t.insert(key(32769, 32768, 32768), 2);

    let coarse = leaves(t.iter_leaves_to_depth(4));
    assert_eq!(coarse.len(), 1);
    assert_eq!(coarse[0].depth(), 4);
}

#[test]
fn iteration_order_is_child_index_order() {
    let mut t = tree();
    t.insert(key(32768, 32768, 32768), 10);
    t.insert(key(32769, 32768, 32768), 20);

    let values: Vec<u8> = leaves(t.iter_leaves()).iter().map(|v| *v.value()).collect();
    assert_eq!(values, vec![10, 20]);
}

#[test]
fn insert_at_depth_stops_early_and_stays_searchable() {
    let mut t = tree();
    t.insert_at_depth(key(32768, 32768, 32768), 4, 7).unwrap();

    assert_eq!(t.len(), 1 + 4);
    let found = leaves(t.iter_leaves());
    assert_eq!(found.len(), 1);
    assert_eq!(found[0].depth(), 4);
    assert_eq!(t.get(key(32768, 32768, 32768)), Some(&7));
}

#[test]
fn depth_beyond_tree_depth_is_rejected() {
    let mut t = tree();
    assert!(t.insert_at_depth(key(0, 0, 0), 17, 1).is_err());
    assert!(t.search_at_depth(key(0, 0, 0), 17).is_err());
    assert!(t.delete_at_depth(key(0, 0, 0), 17).is_err());
}

#[test]
fn node_count_survives_a_mixed_workload() {
    let mut t = tree();
    for i in 0..50u16 {
        t.insert(key(32768 + i, 32768, 32768), (i % 7) as u8);
    }
    assert_eq!(t.count_nodes(), t.len());

    for i in (0..50u16).step_by(3) {
        t.delete(key(32768 + i, 32768, 32768));
    }
    assert_eq!(t.count_nodes(), t.len(), "count drifted after deletions");

    t.prune();
    assert_eq!(t.count_nodes(), t.len(), "count drifted after pruning");
}

#[test]
fn get_after_insert_finds_the_value_for_many_keys() {
    let mut t = tree();
    for (i, k) in [key(0, 0, 0), key(65535, 65535, 65535), key(1, 40000, 7), key(32768, 1, 65534)]
        .iter()
        .enumerate()
    {
        *t.insert(*k, 0) = i as u8 + 1;
        assert_eq!(t.get(*k), Some(&(i as u8 + 1)));
    }
}

#[test]
fn the_returned_reference_writes_through() {
    let mut t = tree();
    let slot = t.insert(key(5, 5, 5), 1);
    *slot = 99;
    assert_eq!(t.get(key(5, 5, 5)), Some(&99));
}

#[test]
fn a_deleted_key_is_no_longer_found() {
    let mut t = tree();
    t.insert(key(32768, 32768, 32768), 3);
    t.insert(key(10, 10, 10), 4);
    assert!(t.delete(key(32768, 32768, 32768)));
    assert_eq!(t.get(key(32768, 32768, 32768)), None);
    assert_eq!(t.get(key(10, 10, 10)), Some(&4));
}

#[test]
fn a_root_without_children_survives_a_delete() {
    let mut t = tree();
    t.ensure_root(6);
    assert!(!t.delete(key(1, 1, 1)), "the root is never split");
    assert_eq!(t.len(), 1);
    assert_eq!(t.get(key(1, 1, 1)), Some(&6), "a childless root covers every key");
}

#[test]
fn expansion_keeps_every_lookup() {
    let mut t = tree();
    t.insert_at_depth(key(32768, 32768, 32768), 14, 8).unwrap();
    let created = t.expand_to_depth(0);
    assert_eq!(created, 8 + 64);
    assert_eq!(t.count_nodes(), t.len());
    assert_eq!(t.get(key(32768, 32768, 32768)), Some(&8));
    assert_eq!(t.get(key(32771, 32771, 32771)), Some(&8));
}

#[test]
fn search_at_a_shallow_depth_returns_the_inner_node() {
    let mut t = tree();
    t.insert(key(32768, 32768, 32768), 1);
    let node = t.search_at_depth(key(32768, 32768, 32768), 3).unwrap().unwrap();
    assert!(node.has_children());
    assert_eq!(node.value(), &0, "intermediate nodes hold the default value");
}

#[test]
fn set_root_recounts_the_nodes() {
    let mut t = tree();
    let mut root = octomap::node::Node::new(1u8);
    root.expand();
    t.set_root(Some(root));
    assert_eq!(t.len(), 9);
    assert_eq!(t.count_nodes(), 9);
    t.set_root(None);
    assert!(t.is_empty());
    assert_eq!(t.len(), 0);
}

#[test]
fn pruning_climbs_while_each_level_merges() {
    // Sixty-four equal voxels fill a depth-13 block completely: the first
    // sweep merges eight blocks of eight, the second merges those eight.
    let mut t: OctreeCore<u8> = OctreeCore::with_geometry(KeyGeometry::new());
    for x in 0..4u16 {
        for y in 0..4u16 {
            for z in 0..4u16 {
                t.insert(OcTreeKey::new(32768 + x, 32768 + y, 32768 + z), 5);
            }
        }
    }
    let before = t.len();
    let removed = t.prune();
    assert_eq!(removed, 64 + 8);
    assert_eq!(t.len(), before - removed);
    assert_eq!(t.count_nodes(), t.len());
    assert_eq!(t.count_leaf_nodes(), 1);
    assert_eq!(t.get(OcTreeKey::new(32771, 32769, 32770)), Some(&5));
}
