use octomap::node::Node;

#[test]
fn fresh_node_has_no_children_and_no_array() {
    let node = Node::new(1u8);
    assert!(!node.has_children());
    assert_eq!(node.child_count(), 0);
    assert_eq!(node.subtree_size(), 1);
    assert_eq!(node.leaf_count(), 1);
    assert!(!node.has_child_array(), "array must stay unallocated");
}

#[test]
fn create_child_reports_whether_a_slot_was_filled() {
    let mut node = Node::new(0u8);
    assert!(node.create_child(3, 7));
    assert!(!node.create_child(3, 9), "overwrite is not a new node");
    assert_eq!(node.child(3).unwrap().value(), &9);
    assert_eq!(node.child_count(), 1);
}

#[test]
fn delete_child_frees_the_array_once_empty() {
    let mut node = Node::new(0u8);
    node.create_child(1, 1);
    node.create_child(2, 2);

    assert_eq!(node.delete_child(1), 1);
    assert!(node.has_child_array(), "still has one child");

    assert_eq!(node.delete_child(2), 1);
    assert!(
        !node.has_child_array(),
        "array must be released so the node reads as a leaf"
    );
    assert!(!node.has_children());
}

#[test]
fn deleting_an_empty_slot_removes_nothing() {
    let mut node = Node::new(0u8);
    assert_eq!(node.delete_child(5), 0);
    node.create_child(1, 1);
    assert_eq!(node.delete_child(5), 0);
}

#[test]
fn delete_child_counts_the_whole_subtree() {
    let mut node = Node::new(0u8);
    node.create_child(0, 1);
    let child = node.child_mut(0).unwrap();
    child.create_child(0, 2);
    child.create_child(1, 3);

    assert_eq!(node.delete_child(0), 3);
    assert_eq!(node.subtree_size(), 1);
}

#[test]
fn collapsible_requires_all_eight_equal_childless_children() {
    let mut node = Node::new(0u8);
    assert!(!node.is_collapsible(), "no children at all");

    for i in 0..8 {
        node.create_child(i, 5);
    }
    assert!(node.is_collapsible());

    node.child_mut(4).unwrap().set_value(6);
    assert!(!node.is_collapsible());
    node.child_mut(4).unwrap().set_value(5);
    assert!(node.is_collapsible());

    node.child_mut(2).unwrap().create_child(0, 5);
    assert!(!node.is_collapsible());
}

#[test]
fn collapsible_is_false_when_a_child_is_missing() {
    let mut node = Node::new(0u8);
    for i in 0..7 {
        node.create_child(i, 5);
    }
    assert!(!node.is_collapsible(), "only seven children");
}

#[test]
fn prune_adopts_the_child_value_and_removes_eight_nodes() {
    let mut node = Node::new(0u8);
    for i in 0..8 {
        node.create_child(i, 5);
    }
    assert_eq!(node.prune(), 8);
    assert_eq!(node.value(), &5, "parent takes the children's value");
    assert!(!node.has_children());
    assert_eq!(node.subtree_size(), 1);
}

#[test]
fn prune_is_a_no_op_when_not_collapsible() {
    let mut node = Node::new(0u8);
    node.create_child(0, 5);
    assert_eq!(node.prune(), 0);
    assert_eq!(node.value(), &0, "value must be untouched");
    assert_eq!(node.child_count(), 1);
}

#[test]
fn expand_copies_the_value_into_eight_children() {
    let mut node = Node::new(42u8);
    assert_eq!(node.expand(), 8);
    assert_eq!(node.child_count(), 8);
    for i in 0..8 {
        assert_eq!(node.child(i).unwrap().value(), &42);
    }
    assert_eq!(node.leaf_count(), 8);
}

#[test]
fn expand_then_prune_is_the_identity() {
    let mut node = Node::new(42u8);
    let before = Node::new(42u8);
    node.expand();
    node.prune();
    assert_eq!(node, before);
}

#[test]
fn expand_refuses_a_node_that_already_has_children() {
    let mut node = Node::new(1u8);
    node.create_child(0, 2);
    assert_eq!(node.expand(), 0);
    assert_eq!(node.child_count(), 1);
}

#[test]
fn leaf_count_ignores_inner_nodes() {
    let mut root = Node::new(0u8);
    root.create_child(0, 1);
    root.create_child(1, 1);
    root.child_mut(0).unwrap().expand();

    assert_eq!(root.leaf_count(), 9);
    assert_eq!(root.subtree_size(), 1 + 2 + 8);
}

#[test]
fn children_come_out_in_slot_order() {
    let mut node = Node::new(0u8);
    node.create_child(6, 60);
    node.create_child(1, 10);
    node.create_child(3, 30);
    let seen: Vec<(u8, u8)> = node
        .children_iter()
        .iter()
        .map(|(i, c)| (*i, *c.value()))
        .collect();
    assert_eq!(seen, vec![(1, 10), (3, 30), (6, 60)]);
}

#[test]
fn clear_children_reports_every_removed_node() {
    let mut node = Node::new(0u8);
    node.create_child(0, 1);
    node.child_mut(0).unwrap().expand();
    node.create_child(5, 2);
    assert_eq!(node.clear_children(), 1 + 8 + 1);
    assert!(!node.has_child_array());
    assert_eq!(node.value(), &0);
}

#[test]
fn map_values_keeps_the_shape() {
    let mut node = Node::new(2u8);
    node.create_child(4, 3);
    node.child_mut(4).unwrap().create_child(7, 5);
    let doubled = node.map_values(&|v: &u8| u16::from(*v) * 100);
    assert_eq!(doubled.value(), &200);
    assert_eq!(doubled.child(4).unwrap().value(), &300);
    assert_eq!(doubled.child(4).unwrap().child(7).unwrap().value(), &500);
    assert_eq!(doubled.subtree_size(), node.subtree_size());
    assert!(doubled.child(0).is_none());
}

#[test]
#[should_panic(expected = "child index")]
fn child_index_above_seven_panics() {
    Node::new(0u8).child(8);
}
