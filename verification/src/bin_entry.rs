use vstd::prelude::*;
use crate::node::Node;
use crate::tree_bin::TreeBin;
use crate::tree_node::TreeNode;

verus! {

/// What a bucket slot of the owning map currently references: a plain
/// collision chain entry, a whole tree bin, one node of a tree (reachable as
/// a bucket element only in transient states), or the marker that the bucket
/// has been relocated by a resize. Exactly one variant is live per slot at a
/// time; the owning map performs the transitions.
pub enum BinEntry {
    Node(Node),
    Tree(TreeBin),
    TreeNode(TreeNode),
    Moved,
}

impl BinEntry {
    pub fn as_node(&self) -> (r: Option<&Node>)
        ensures
            match *self {
                BinEntry::Node(ref n) => r == Some(n),
                _ => r is None,
            },
    {
        if let BinEntry::Node(ref n) = *self {
            Some(n)
        } else {
            None
        }
    }

    pub fn as_tree_node(&self) -> (r: Option<&TreeNode>)
        ensures
            match *self {
                BinEntry::TreeNode(ref n) => r == Some(n),
                _ => r is None,
            },
    {
        if let BinEntry::TreeNode(ref n) = *self {
            Some(n)
        } else {
            None
        }
    }

    pub fn as_tree_bin(&self) -> (r: Option<&TreeBin>)
        ensures
            match *self {
                BinEntry::Tree(ref n) => r == Some(n),
                _ => r is None,
            },
    {
        if let BinEntry::Tree(ref n) = *self {
            Some(n)
        } else {
            None
        }
    }
}

} // verus!
