//! A retained-mode scene-graph engine: a directed graph of property-bearing
//! nodes, topologically ordered from a designated output node, re-evaluated
//! incrementally with per-node output caching.

pub mod data;
pub mod eval;
pub mod node;
pub mod render;
pub mod util;
