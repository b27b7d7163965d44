use array_range_query::SegTreeNode;

#[test]
fn test_basic_navigation() {
    let root = SegTreeNode(1);
    let left = root.left_child();
    let right = root.right_child();

    assert_eq!(left.0, 2);
    assert_eq!(right.0, 3);
    assert_eq!(left.parent().0, 1);
    assert_eq!(right.parent().0, 1);
}

#[test]
fn test_sibling_and_child_properties() {
    let node2 = SegTreeNode(2);
    let node3 = SegTreeNode(3);

    assert_eq!(node2.sibling().0, 3);
    assert_eq!(node3.sibling().0, 2);
    assert!(node2.is_left_child());
    assert!(node3.is_right_child());
}

#[test]
fn test_depth_calculation() {
    let root = SegTreeNode(1);
    let depth1 = SegTreeNode(2);
    let depth2 = SegTreeNode(4);

    assert_eq!(root.depth(), 0);
    assert_eq!(depth1.depth(), 1);
    assert_eq!(depth2.depth(), 2);
}

#[test]
fn test_bounds_calculation() {
    let root = SegTreeNode(1);
    let max_depth = 3;

    assert_eq!(root.size(max_depth), 8);
    assert_eq!(root.left_bound(max_depth), 0);
    assert_eq!(root.right_bound(max_depth), 8);
    assert_eq!(root.node_bounds(max_depth), (0, 8));
}

#[test]
fn seg_tree_node_test_leaf_detection() {
    let root = SegTreeNode(1);
    let leaf = SegTreeNode(8);
    let max_depth = 3;

    assert!(!root.is_leaf(max_depth));
    assert!(leaf.is_leaf(max_depth));
}

#[test]
fn test_lca_same_depth() {
    let node4 = SegTreeNode(4);
    let node5 = SegTreeNode(5);
    let lca = SegTreeNode::get_lca_from_same_depth(node4, node5);

    assert_eq!(lca.0, 2);
}

#[test]
fn seg_tree_node_test_lca_different_depth() {
    let node2 = SegTreeNode(2);
    let node4 = SegTreeNode(4);
    let lca = SegTreeNode::get_lca_from_different_depth(node2, node4);

    assert_eq!(lca.0, 2);
}

#[test]
fn test_binding_nodes() {
    let node4 = SegTreeNode(4);
    let node5 = SegTreeNode(5);

    let left_binding = node4.get_left_binding_node();
    let right_binding = node5.get_right_binding_node();

    // Basic test that methods execute without panic
    assert!(left_binding.0 > 0);
    assert!(right_binding.0 > 0);
}
