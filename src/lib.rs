//! Materialized per-node state for a streaming dataflow engine: multiset row
//! storage, partially materialized indices with hole/filled bookkeeping per
//! replay tag, and key eviction.

pub mod value;
pub mod rows;
pub mod result;
pub mod state;
