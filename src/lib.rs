//! Reverse-dependency reachability analysis for a vulnerable library: the
//! version selection, the breadth-first traversal over reverse dependents, the
//! per-node workspace layout, manifest pinning, the decisions that surround
//! the external call-graph analyzer, and the graph and counts that the
//! statistics over the resulting artifacts are drawn from.
pub mod version;
pub mod error;
pub mod select;
pub mod model;
pub mod dependents;
pub mod paths;
pub mod workspace;
pub mod traversal;
pub mod text;
pub mod runner;
pub mod manifest;
pub mod materialize;
pub mod graph;
pub mod enhanced;
pub mod stats;
pub mod report;
