//! Balance factors of a binary tree: for every node, the height of its left
//! subtree minus the height of its right subtree, listed children first.

use vstd::prelude::*;

verus! {

/// A node of a binary tree, owning its two subtrees.
#[derive(Debug)]
pub struct TreeNode {
    pub val: i32,
    pub left: Option<Box<TreeNode>>,
    pub right: Option<Box<TreeNode>>,
}

/// The number of nodes on the longest path from the root of `tree` down to
/// a leaf; 0 for the empty tree.
pub open spec fn height(tree: Option<Box<TreeNode>>) -> nat
    decreases tree,
{
    match tree {
        None => 0,
        Some(node) => {
            let l = height(node.left);
            let r = height(node.right);
            if l >= r {
                1 + l
            } else {
                1 + r
            }
        },
    }
}

/// The number of nodes of `tree`.
pub open spec fn size(tree: Option<Box<TreeNode>>) -> nat
    decreases tree,
{
    match tree {
        None => 0,
        Some(node) => size(node.left) + size(node.right) + 1,
    }
}

/// The balance factor of every node of `tree`, in post-order: those of the
/// left subtree, those of the right subtree, then that of the root.
pub open spec fn balance_factors(tree: Option<Box<TreeNode>>) -> Seq<int>
    decreases tree,
{
    match tree {
        None => Seq::empty(),
        Some(node) => (balance_factors(node.left) + balance_factors(node.right)).push(
            height(node.left) - height(node.right),
        ),
    }
}

/// The numbers of `v` as mathematical integers.
pub open spec fn ints(v: Seq<i32>) -> Seq<int> {
    v.map_values(|x: i32| x as int)
}

/// There is one balance factor for each node, and none exceeds the height
/// of the tree in either direction.
pub proof fn lemma_balance_factors_bounded(tree: Option<Box<TreeNode>>)
    ensures
        balance_factors(tree).len() == size(tree),
        forall|k: int|
            0 <= k < balance_factors(tree).len() ==> -height(tree) < #[trigger] balance_factors(
                tree,
            )[k] < height(tree),
    decreases tree,
{
    match tree {
        None => {},
        Some(node) => {
            lemma_balance_factors_bounded(node.left);
            lemma_balance_factors_bounded(node.right);
            let l = balance_factors(node.left);
            let r = balance_factors(node.right);
            let all = balance_factors(tree);
            assert forall|k: int| 0 <= k < all.len() implies -height(tree) < #[trigger] all[k]
                < height(tree) by {
                if k < l.len() {
                    assert(all[k] == l[k]);
                } else if k < l.len() + r.len() {
                    assert(all[k] == r[k - l.len()]);
                }
            }
        },
    }
}

impl TreeNode {
    /// A leaf holding `val`.
    pub fn new(val: i32) -> (node: Self)
        ensures
            node.val == val,
            node.left.is_none(),
            node.right.is_none(),
    {
        TreeNode { val, left: None, right: None }
    }

    /// A node holding `val` above the two given subtrees.
    pub fn with_children(val: i32, left: Option<Box<TreeNode>>, right: Option<Box<TreeNode>>) -> (node:
        Self)
        ensures
            node.val == val,
            node.left == left,
            node.right == right,
    {
        TreeNode { val, left, right }
    }
}

impl Clone for TreeNode {
    /// A copy of the whole tree under this node.
    fn clone(&self) -> (res: Self)
        ensures
            res == *self,
        decreases self,
    {
        TreeNode {
            val: self.val,
            left: (match &self.left {
                Some(node) => Some(Box::new((&**node).clone())),
                None => None,
            }),
            right: (match &self.right {
                Some(node) => Some(Box::new((&**node).clone())),
                None => None,
            }),
        }
    }
}

/// Appends the balance factors of `node`'s tree to `result`, in
/// post-order, and returns the height of the tree.
fn compute_heights_and_balance_factors(node: &Option<Box<TreeNode>>, result: &mut Vec<i32>) -> (h:
    i32)
    requires
        height(*node) <= i32::MAX,
    ensures
        h == height(*node),
        ints(final(result)@) == ints(old(result)@) + balance_factors(*node),
    decreases *node,
{
    match node {
        None => {
            assert(ints(result@) =~= ints(result@) + balance_factors(*node));
            0
        },
        Some(n) => {
            let ghost before = result@;
            let left_height: i32 = compute_heights_and_balance_factors(&n.left, result);
            let ghost middle = result@;
            let right_height: i32 = compute_heights_and_balance_factors(&n.right, result);
            let ghost after = result@;
            let balance_factor: i32 = left_height - right_height;
            result.push(balance_factor);
            proof {
                assert(ints(result@) =~= ints(after).push(balance_factor as int));
                assert(ints(result@) =~= ints(before) + balance_factors(*node));
            }
            if left_height >= right_height {
                1 + left_height
            } else {
                1 + right_height
            }
        },
    }
}

/// The balance factor of every node of the tree under `root`, in
/// post-order; the empty list for the empty tree.
pub fn compute_balance_factors(root: &Option<Box<TreeNode>>) -> (result: Vec<i32>)
    requires
        height(*root) <= i32::MAX,
    ensures
        ints(result@) == balance_factors(*root),
        result.len() == size(*root),
{
    let mut result: Vec<i32> = Vec::new();
    compute_heights_and_balance_factors(root, &mut result);
    proof {
        assert(ints(result@) =~= balance_factors(*root));
        lemma_balance_factors_bounded(*root);
        assert(ints(result@).len() == result@.len());
    }
    result
}

} // verus!
