//! Shortest-route computation over a road network.
//!
//! The crate turns a collection of tagged map records into a weighted,
//! undirected graph, locates the graph node nearest to a query coordinate,
//! and runs a min-priority-queue shortest-path search with path
//! reconstruction.  Coordinates are carried as integer microdegrees and
//! distances as integer meters, so every stage is verified.

pub mod geo;
pub mod graph;
pub mod locate;
pub mod engine;
