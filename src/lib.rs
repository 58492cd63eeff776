//! Graph searches with proved contracts: a breadth-first traversal that
//! reports its expansion order, and a cheapest-route search over
//! non-negative integer weights that reconstructs the route it found.
use vstd::prelude::*;

pub mod bfs;
pub mod graph;
pub mod shortest_path;

verus! {

} // verus!
