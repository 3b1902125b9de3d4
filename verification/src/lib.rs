//! Graphs over an arena of node slots: an undirected simple graph (`Graph`)
//! and a directed graph with optional self-loops and parallel edges
//! (`WUGraph`), with breadth-first and depth-first traversals.
pub mod actor;
pub mod graph;
pub mod index;
pub mod laws;
pub mod seq_util;
pub mod traverse;
pub mod wugraph;

pub use actor::{EngineResponse, RequestId};
pub use graph::Graph;
pub use index::{NodeError, NodeIndex};
pub use wugraph::{NodeData, WUGraph};
