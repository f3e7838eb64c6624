//! Nodes and the node graph.

pub mod defs;
pub mod graph;
pub mod node;
