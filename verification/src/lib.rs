//! Cache-conscious data structures for locality-sensitive workloads.
//!
//! An immutable directed graph stored in compressed sparse row (CSR) form.
//! Construction is separated from traversal: `GraphBuilder` is mutable, while
//! `Graph` is compact and read-only once built.

mod algorithms;
mod builder;
mod error;
mod graph;
mod id;
mod levels;
mod paths;
mod postorder;
mod rcm;
mod reorder;
mod scc;
mod search;
mod shortest;
mod topo;
mod traversal;

pub use algorithms::CycleError;
pub use builder::GraphBuilder;
pub use error::BuildError;
pub use graph::{EdgeRef, Edges, Graph, Neighbors};
pub use id::NodeId;
pub use reorder::Reorder;
pub use traversal::{Bfs, Dfs};
