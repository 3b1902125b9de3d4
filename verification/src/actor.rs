use vstd::prelude::*;
use crate::index::{NodeError, NodeIndex};

verus! {

/// A unique identifier of a request, used to match responses to requests.
#[derive(Clone, Copy, PartialEq, Eq, Structural, Hash, Debug)]
pub struct RequestId(pub u64);

/// The answers that the engine gives to the requests of a node.
#[derive(Debug)]
pub enum EngineResponse {
    /// The outgoing neighbours of the asking node.
    AllNeighbors(Vec<NodeIndex>),
    /// The request was carried out.
    Ack,
    /// The outcome of an operation that can fail.
    Result(Result<(), NodeError>),
    /// The handle of a node that was created.
    NewNodeIndex(NodeIndex),
}

} // verus!
