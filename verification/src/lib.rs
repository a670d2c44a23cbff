//! An in-memory model of one browser page load as a directed, timestamped
//! graph: DOM elements, scripts, network resources and policy markers are
//! nodes; creation, modification, request and execution actions are edges.
//! The graph is built once by an ingestion step and is read-only afterwards;
//! every query here is a verified, pure view over it.

pub mod types;
pub mod adjacency;
pub mod graph;
pub mod graph_algos;
pub mod causal;
pub mod filtering;
