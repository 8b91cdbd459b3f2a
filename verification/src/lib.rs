//! Graph search over implicit graphs: a graph is given by a function that
//! lists the successors of a node on demand, and is never stored in full.
//!
//! Nodes are identified by `u64` keys and costs are `u64` values that add
//! with saturation. Every search states in its contract which path it
//! returns, over the walks of the graph that the caller's functions describe.
//!
//! - [`directed::astar`]: a cheapest path, and all the cheapest paths.
//! - [`directed::bfs`]: a shortest path by steps, a shortest loop, the search
//!   from both ends, and the enumeration of all that can be reached.
//! - [`graph`]: the graph that the caller's functions describe, and what each
//!   kind of search owes.
//! - [`registry`] and [`node_index`]: the discovered nodes, in the order of
//!   their discovery.
//! - [`frontier`]: the candidates of a cost-guided search, cheapest first.
//! - [`layers`], [`labels`] and [`chains`]: what the searches know while they
//!   run, and the proofs that rest on it.
//! - [`cost`]: sums of costs.

pub mod chains;
pub mod cost;
pub mod directed;
pub mod frontier;
pub mod graph;
pub mod labels;
pub mod layers;
pub mod node_index;
pub mod prelude;
pub mod registry;
