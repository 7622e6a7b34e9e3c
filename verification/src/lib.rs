//! An in-memory undirected weighted graph container.
//!
//! A graph owns a set of node records (identity, derived weight, degree
//! counter) and an adjacency structure mapping each node id to the set of
//! edge descriptors incident to it.  Mutation keeps the adjacency symmetric
//! and the degree counters equal to the number of distinct incident edges.

pub mod edge;
pub mod graph;
pub mod node;
