//! State-space exploration for a sliding-block puzzle: an agent pushes pieces
//! into sockets on a square grid. The library canonicalizes boards by agent
//! reachability, simulates single pushes, and builds a deduplicated graph of
//! every reachable configuration with shortest move counts from the start.
use vstd::prelude::*;

pub mod cell;
mod counting;
pub mod grid;
pub mod moves;
pub mod search;
pub mod shortest_path;
pub mod state_graph;
pub mod text;

verus! {

} // verus!
