//! The searches, the types that they hand out, and what their contracts are
//! stated with.

pub use crate::directed::astar::{
    astar, astar_bag, astar_bag_collect, astar_with_hasher, AstarSolution,
};
pub use crate::directed::bfs::{
    bfs, bfs_bidirectional, bfs_bidirectional_with_hasher, bfs_loop, bfs_loop_with_hasher, bfs_reach,
    bfs_reach_with_hasher, bfs_with_hasher, BfsReachable,
};
pub use crate::node_index::NodeHasher;
