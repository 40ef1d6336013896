//! A weighted union-find structure with path compression.
//!
//! [`Graph`] keeps a fixed set of nodes, numbered from zero, split into
//! disjoint sets. Two nodes are connected when they are in the same set, and
//! connecting two nodes merges their sets.
//!
//! The contracts of [`Graph`] are stated over two models. A
//! [`forest::Forest`] is what the graph holds: a parent for every node and a
//! weight for every root. A [`partition::Partition`] is what the forest
//! stands for: the sets, each named by its representative. Both modules
//! prove the laws that the operations obey.
//!
//! # Examples
//! ```
//! let n_nodes = 10;
//! let mut graph = wuf::Graph::new(n_nodes);
//! let node_id1 = 0;
//! let node_id2 = 1;
//! if !graph.connected(node_id1, node_id2) {
//!     graph.connect(node_id1, node_id2);
//! }
//! ```

pub mod forest;
pub mod graph;
pub mod partition;

pub use graph::Graph;
