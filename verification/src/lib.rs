//! Reconciles the extension manifest of a source repository with the merged
//! registry catalog and its provenance ledger, and prepares the snapshot
//! that publishes the outcome.

pub mod clock;
pub mod config;
pub mod laws;
pub mod materializer;
pub mod publisher;
pub mod reconcile;
pub mod registry;
pub mod requests;
pub mod semver;
pub mod text;
pub mod text_map;
pub mod versioning;
