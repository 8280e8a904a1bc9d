//! Structural metrics over a sparse, undirected, unweighted graph held as an
//! adjacency map from node identifiers to neighbour lists: breadth-first
//! search, the mean shortest-path length over a sample of sources, the
//! degree distribution, communities by label propagation, and degree,
//! closeness and betweenness centrality.
//!
//! Every result is exact. Where a metric is a quotient, the library returns
//! its two terms as a [`ratio::Ratio`] and leaves the division to the
//! caller; for betweenness it returns the shortest paths from a source,
//! over which the caller accumulates path counts and dependencies.
//!
//! A graph is expected to store every edge in both directions
//! ([`graph::is_symmetric`]), as [`graph::add_edge`] does. No function
//! relies on it: a neighbour that is no key of the map is a node without
//! neighbours of its own.

pub mod analysis;
pub mod centrality;
pub mod graph;
pub mod keys;
pub mod paths;
pub mod propagation;
pub mod ratio;
pub mod records;
pub mod sorted;
pub mod sums;
pub mod traversal;
mod trusted;
