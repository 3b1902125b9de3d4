use vstd::prelude::*;

verus! {

/// The handle of a node: the number of the slot that holds it.
#[derive(Clone, Copy, PartialEq, Eq, Structural, PartialOrd, Ord, Hash, Debug, Default)]
pub struct NodeIndex {
    pub index: usize,
}

/// Why an operation on a graph was refused.
#[derive(Clone, Copy, PartialEq, Eq, Structural, Debug)]
pub enum NodeError {
    /// The node does not exist (never created, or deleted).
    InvalidIndex(NodeIndex),
    /// An edge from a node to itself was asked for where self-loops are not allowed.
    SelfLoop(NodeIndex),
    /// There is no edge between the two nodes.
    NoEdge(NodeIndex, NodeIndex),
}

impl NodeIndex {
    /// The handle of slot `index`.
    pub fn new(index: usize) -> (r: NodeIndex)
        ensures
            r.index == index,
    {
        NodeIndex { index }
    }
}

} // verus!
