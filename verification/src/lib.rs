//! Benchmarked shortest-path search over grid-shaped mazes.
//!
//! A rectangular maze of open and walled cells is loaded from text, turned
//! into an undirected graph over its cells, and searched with a best-first
//! (uniform-cost) shortest-path routine. A benchmark harness drives the
//! search repeatedly and aggregates timing records.

pub mod bench;
pub mod graph;
pub mod maze;
pub mod search;
pub mod text;
pub mod time;
