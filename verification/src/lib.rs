//! Heuristic algorithms for vertex coloring of simple undirected graphs.
//!
//! A graph is presented through the `ColorableGraph` trait; two storage
//! representations are provided: `VecVecGraph` (adjacency lists, mutable
//! builder) and `CsrGraph` (compressed sparse row, immutable). Four
//! polynomial-time coloring heuristics produce a dense color vector indexed
//! by vertex id, and each is proved to return a proper coloring that uses at
//! most `max_degree + 1` colors. Every algorithm's result is pinned to a
//! specification-level function of the graph's adjacency view, so repeated
//! runs, and runs on different representations of the same graph, provably
//! return the same vector.

pub mod model;
pub mod graph;
pub mod greedy;
pub mod dsatur;
pub mod rlf;
pub mod coloring;

pub use coloring::count_colors;
pub use coloring::validate_coloring;
pub use dsatur::color_greedy_dsatur;
pub use rlf::color_rlf;
pub use greedy::color_greedy_by_degree;
pub use greedy::color_greedy_by_order;
pub use greedy::color_greedy_naive;
pub use graph::ColorableGraph;
pub use graph::CsrGraph;
pub use graph::VecVecGraph;
pub use model::UNCOLORED;
