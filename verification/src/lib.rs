//! An undirected similarity graph over players, with its degree
//! distribution and its connected components.
//!
//! [`graph::Graph`] holds the players as nodes and takes edges between them.
//! [`analysis::similarity_graph`] builds the graph in which two players are
//! neighbours exactly if they have the same rating. The contracts speak of a
//! graph through its view, [`model::GraphView`]; [`laws`] states what holds of
//! every graph.

pub mod player;
pub mod model;
pub mod distribution;
pub mod traversal;
pub mod reach;
pub mod laws;
pub mod graph;
pub mod analysis;
