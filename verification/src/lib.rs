//! Cross-node cache retrieval and reconciliation for a distributed search
//! engine.
//!
//! When a query arrives, previously computed partial results ("cache
//! entries") covering sub-ranges of the requested time window may already
//! exist on the cluster's query-serving nodes. This crate holds the verified
//! core of the layer that gathers those entries and merges them: preparing
//! the node set for the fan-out, classifying per-node failures, normalizing
//! decoded payloads, pooling entries from all sources, and selecting a
//! non-overlapping, maximal-coverage subset relevant to the query's time
//! window. The network fan-out itself is unverified plumbing that hands this
//! crate plain values.

mod json;
pub mod model;
pub mod errors;
pub mod nodes;
pub mod normalize;
pub mod pool;
pub mod reconcile;
