//! PQ-trees: trees of P-nodes, whose children may be permuted, and Q-nodes,
//! whose children may only be reversed.

use vstd::prelude::*;

verus! {

/// The two kinds of inner node.
pub enum PqNodeType {
    P,
    Q,
}

/// A node with its children, its kind (`'P'` or `'Q'`) and its label.
pub struct PqNode {
    pub children: Vec<PqNode>,
    pub node_type: char,
    pub node_label: char,
}

/// A PQ-tree, given by its root.
pub struct PqTree {
    pub root: PqNode,
}

impl PqTree {
    /// The tree of a single P-node with the label `'0'` and no children.
    pub fn new() -> (tree: PqTree)
        ensures
            tree.root.children@.len() == 0,
            tree.root.node_type == 'P',
            tree.root.node_label == '0',
    {
        PqTree { root: PqNode { children: Vec::new(), node_type: 'P', node_label: '0' } }
    }
}

} // verus!
