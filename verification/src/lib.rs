//! A road-network library: weighted undirected graphs over location nodes,
//! best-first path search, a region-keyed cache of graphs, and the selection
//! of the nearest eligible resource for a request origin.

pub mod dispatch;
pub mod graph;
pub mod graph_cache;
