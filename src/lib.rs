//! A small in-memory directed graph: nodes and edges kept in insertion order,
//! mutation by appending and removing, and breadth-first and depth-first
//! traversal from a start node.
use vstd::prelude::*;

pub mod graph;
pub mod search;

verus! {

} // verus!
