//! Analysis of a directed, weighted trust network: adjacency construction,
//! degrees, clustering, connected components, trust scores and the ranking
//! of representative nodes.
//!
//! Every real-valued quantity is a fixed-point integer in units of
//! `1 / fixed::SCALE`, so that each result is an exact function of the edges.

pub mod analyze;
pub mod data_loader;
pub mod fixed;
pub mod graph;
