use octomap::geometry::KeyGeometry;
use octomap::key::OcTreeKey;
use octomap::node::Node;
use octomap::tree::OctreeCore;
use octomap::update::{change_action, ChangeAction};

const CENTER: u16 = 32768;

fn key(x: u16, y: u16, z: u16) -> OcTreeKey {
    OcTreeKey::new(x, y, z)
}

fn tree() -> OctreeCore<i32> {
    OctreeCore::with_geometry(KeyGeometry::new())
}

/// Adds `delta` to the voxel, clamped to -2..=2, reporting the value found
/// and the value left.
fn add(delta: i32) -> impl Fn(&i32) -> (i32, (i32, i32)) {
    move |v: &i32| {
        let n = (*v + delta).clamp(-2, 2);
        (n, (*v, n))
    }
}

/// The largest value among a node's children.
fn max_child(n: &Node<i32>) -> i32 {
    n.children_iter().iter().map(|(_, c)| *c.value()).max().unwrap_or(i32::MIN)
}

#[test]
fn an_update_creates_the_path_to_a_new_voxel() {
    let mut t = tree();
    let ((before, after), created) = t.update(key(CENTER, CENTER, CENTER), &add(1), &max_child, false);
    assert!(created);
    assert_eq!((before, after), (0, 1));
    assert_eq!(t.len(), 17);
    assert_eq!(t.count_nodes(), t.len());
    assert_eq!(t.get(key(CENTER, CENTER, CENTER)), Some(&1));
    // Every inner node on the path took the value of its one child.
    assert_eq!(*t.root().unwrap().value(), 1);
}

#[test]
fn a_second_update_finds_the_voxel_and_builds_on_it() {
    let mut t = tree();
    let k = key(CENTER, CENTER, CENTER);
    t.update(k, &add(1), &max_child, false);
    let ((before, after), created) = t.update(k, &add(1), &max_child, false);
    assert!(!created);
    assert_eq!((before, after), (1, 2));
    let ((_, after), _) = t.update(k, &add(1), &max_child, false);
    assert_eq!(after, 2, "the operation clamps");
    assert_eq!(t.len(), 17);
}

#[test]
fn inner_nodes_take_what_the_refresh_computes() {
    let mut t = tree();
    t.update(key(CENTER, CENTER, CENTER), &add(-1), &max_child, false);
    t.update(key(CENTER + 1, CENTER, CENTER), &add(1), &max_child, false);
    assert_eq!(*t.root().unwrap().value(), 1, "root must carry the maximum");
}

#[test]
fn an_eager_update_merges_a_uniform_block() {
    let mut t = tree();
    for dx in 0..2u16 {
        for dy in 0..2u16 {
            for dz in 0..2u16 {
                t.update(key(CENTER + dx, CENTER + dy, CENTER + dz), &add(1), &max_child, false);
            }
        }
    }
    assert_eq!(t.count_leaf_nodes(), 1);
    assert_eq!(t.count_nodes(), t.len(), "node count drifted");
    assert_eq!(t.get(key(CENTER + 1, CENTER + 1, CENTER + 1)), Some(&1));
}

#[test]
fn a_lazy_update_leaves_merging_to_a_later_sweep() {
    let mut t = tree();
    for dx in 0..2u16 {
        for dy in 0..2u16 {
            for dz in 0..2u16 {
                t.update(key(CENTER + dx, CENTER + dy, CENTER + dz), &add(1), &max_child, true);
            }
        }
    }
    assert_eq!(t.count_leaf_nodes(), 8, "lazy mode must not prune");
    assert_eq!(*t.root().unwrap().value(), 0, "lazy mode leaves inner nodes stale");

    t.refresh_inner(&max_child);
    assert_eq!(*t.root().unwrap().value(), 1);
    assert_eq!(t.prune(), 8);
    assert_eq!(t.count_leaf_nodes(), 1);
}

#[test]
fn an_update_inside_a_merged_block_splits_it() {
    let mut t = tree();
    for dx in 0..2u16 {
        for dy in 0..2u16 {
            for dz in 0..2u16 {
                t.update(key(CENTER + dx, CENTER + dy, CENTER + dz), &add(1), &max_child, false);
            }
        }
    }
    assert_eq!(t.count_leaf_nodes(), 1, "starts pruned");

    let ((before, after), created) = t.update(key(CENTER, CENTER, CENTER), &add(-1), &max_child, false);
    assert!(!created, "the voxel was covered by the pruned block");
    assert_eq!((before, after), (1, 0));
    assert_eq!(t.count_leaf_nodes(), 8);
    assert_eq!(t.count_nodes(), t.len(), "node count drifted");
    assert_eq!(t.get(key(CENTER, CENTER, CENTER)), Some(&0));
    assert_eq!(t.get(key(CENTER + 1, CENTER, CENTER)), Some(&1));
}

#[test]
fn an_update_leaves_other_voxels_alone() {
    let mut t = tree();
    t.update(key(100, 200, 300), &add(2), &max_child, false);
    t.update(key(CENTER, CENTER, CENTER), &add(-2), &max_child, true);
    assert_eq!(t.get(key(100, 200, 300)), Some(&2));
    assert_eq!(t.get(key(CENTER, CENTER, CENTER)), Some(&-2));
    assert_eq!(t.get(key(CENTER, CENTER, CENTER + 1)), None);
}

#[test]
fn refreshing_an_empty_tree_does_nothing() {
    let mut t = tree();
    t.refresh_inner(&max_child);
    assert!(t.is_empty());
}

#[test]
fn a_new_voxel_is_recorded_as_new() {
    assert_eq!(change_action(None, true, false, true), ChangeAction::Record(true));
    assert_eq!(change_action(Some(false), true, false, false), ChangeAction::Record(true));
}

#[test]
fn a_voxel_that_flips_back_is_forgotten() {
    // free -> occupied is a change...
    assert_eq!(change_action(None, false, false, true), ChangeAction::Record(false));
    // ...and going back to free cancels it.
    assert_eq!(change_action(Some(false), false, true, false), ChangeAction::Forget);
    // A new voxel stays recorded as new whatever it does next.
    assert_eq!(change_action(Some(true), false, true, false), ChangeAction::Keep);
    // No flip, no change.
    assert_eq!(change_action(None, false, true, true), ChangeAction::Keep);
}
