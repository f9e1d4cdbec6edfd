//! Telemetry aggregation for serverless call graphs: smoothed per-action
//! durations, a name-indexed transition graph, and the reduction of a
//! probabilistic call graph towards a single execution path.

pub mod branch;
pub mod call_graph;
pub mod epoch_cache;
pub mod flatten;
pub mod flow;
pub mod graph;
pub mod node;
pub mod parallel;
pub mod paths;
pub mod store;
