use manber::balance_factors::{compute_balance_factors, TreeNode};

fn leaf(val: i32) -> Option<Box<TreeNode>> {
    Some(Box::new(TreeNode::new(val)))
}

fn node(
    val: i32,
    left: Option<Box<TreeNode>>,
    right: Option<Box<TreeNode>>,
) -> Option<Box<TreeNode>> {
    Some(Box::new(TreeNode::with_children(val, left, right)))
}

#[test]
fn new_makes_a_leaf() {
    let n = TreeNode::new(7);
    assert_eq!(n.val, 7);
    assert!(n.left.is_none());
    assert!(n.right.is_none());
}

#[test]
fn with_children_keeps_what_it_is_given() {
    let n = TreeNode::with_children(1, leaf(2), None);
    assert_eq!(n.val, 1);
    assert_eq!(n.left.as_ref().map(|l| l.val), Some(2));
    assert!(n.right.is_none());
}

#[test]
fn one_factor_for_each_node() {
    let tree = node(1, node(2, leaf(3), None), node(4, leaf(5), leaf(6)));
    assert_eq!(compute_balance_factors(&tree).len(), 6);
}

#[test]
fn factors_do_not_depend_on_the_values() {
    let a = node(1, node(2, leaf(3), None), None);
    let b = node(-9, node(0, leaf(i32::MAX), None), None);
    assert_eq!(compute_balance_factors(&a), compute_balance_factors(&b));
    assert_eq!(compute_balance_factors(&a), vec![0, 1, 2]);
}

#[test]
fn mirrored_tree_has_negated_factors_in_post_order() {
    let tree = node(1, node(2, leaf(3), None), leaf(4));
    let mirror = node(1, leaf(4), node(2, None, leaf(3)));
    assert_eq!(compute_balance_factors(&tree), vec![0, 1, 0, 1]);
    assert_eq!(compute_balance_factors(&mirror), vec![0, 0, -1, -1]);
}

#[test]
fn clone_copies_the_whole_tree() {
    let tree = TreeNode::with_children(1, node(2, leaf(3), None), leaf(4));
    let copy = tree.clone();
    assert_eq!(copy.val, 1);
    assert_eq!(
        compute_balance_factors(&Some(Box::new(copy))),
        compute_balance_factors(&Some(Box::new(tree)))
    );
}

#[test]
fn a_long_left_spine() {
    let mut tree = leaf(0);
    for v in 1..200 {
        tree = node(v, tree, None);
    }
    let expected: Vec<i32> = (0..200).collect();
    assert_eq!(compute_balance_factors(&tree), expected);
}
