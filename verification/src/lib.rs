//! Reachability search over an implicit graph.
//!
//! A graph is given by a successor function on nodes; `can_reach` decides
//! whether a node accepted by a goal predicate can be reached from a start node.
//! The module `graph` holds the mathematical model (steps, walks, reachability)
//! and the laws that follow from it; the module `search` holds the executable
//! depth-first search and its contracts.

pub mod graph;
pub mod laws;
pub mod search;

pub use search::can_reach;
pub use search::can_reach_exclusive;
