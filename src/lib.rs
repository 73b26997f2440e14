//! Anomaly classification of pairwise ratings between entities, with the
//! per-entity rating statistics it rests on.
pub mod stats;
pub mod graph;
pub mod aggregate;
pub mod ingest;
pub mod log;
