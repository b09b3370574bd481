//! An undirected, multigraph-capable graph container with stable integer
//! handles for nodes and edges.
//!
//! Handles survive arbitrary insertions and deletions: removing a node or an
//! edge leaves a hole that a later allocation fills again (lowest hole
//! first), so indices held by a caller stay meaningful until the slot they
//! name is freed.  On top of the slot store sit structural transformations
//! (composition, contraction, substitution by a subgraph, induced subgraphs,
//! directed conversion, adjacency-matrix import) and an exact state codec
//! that serializes a container, holes included, and reconstructs it.

pub mod slot;

pub mod graph;

pub mod codec;

pub mod ops;

pub mod digraph;

pub mod matrix;
