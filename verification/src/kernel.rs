//! The data model: statuses, tasks and the tree that holds them, and the
//! shape of a pass that rewrites a tree.

use vstd::prelude::*;

use self::task::{TaskTree, TreeNode};

pub mod task;

verus! {

/// A pass that takes a whole tree and gives back the tree it makes of it.
pub trait Treatment {
    fn treat(tree: TaskTree) -> TaskTree;
}

/// A treatment described by what it does to a single node.
struct EachNodeTreatment<F: FnOnce(TreeNode) -> TreeNode> {
    pub treat_each_node: F,
}

impl<F: FnOnce(TreeNode) -> TreeNode> EachNodeTreatment<F> {
    fn new(treat_each_node: F) -> (treatment: Self)
        ensures
            treatment.treat_each_node == treat_each_node,
    {
        EachNodeTreatment { treat_each_node }
    }
}

impl<F> Treatment for EachNodeTreatment<F> where F: FnOnce(TreeNode) -> TreeNode {
    /// Hands the tree back as it came.
    fn treat(tree: TaskTree) -> (treated: TaskTree)
        ensures
            treated == tree,
    {
        tree
    }
}

} // verus!
