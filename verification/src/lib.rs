//! Minimum-cost paths in a finite, undirected, non-negatively weighted graph.
//!
//! The crate has three parts: a small adjacency-list graph store whose
//! vertices are named by strings and identified by dense indices, a
//! single-source shortest-path solver that runs a best-first relaxation over
//! a min-priority queue and reconstructs the cheapest path through parent
//! pointers, and a parser for the decimal cost token of an edge line.

pub mod graph;
pub mod parse;
pub mod solver;
