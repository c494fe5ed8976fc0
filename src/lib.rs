//! Upsert reconciliation for a streaming dataflow.
//!
//! A stream of "set the value of a key" and "delete a key" commands is turned
//! into a last-write-wins collection of changes: each command retracts its
//! key's current value and inserts its own. The operator rebuilds its store
//! from its own earlier output when it restarts.
//!
//! - [`codec`]: rows, upsert errors, and the SHA-256 keys derived from them.
//! - [`state`]: the store of the current value of each key.
//! - [`scratch`]: the per-batch map of the keys that a batch touches.
//! - [`model`]: what processing commands means, and the laws it obeys.
//! - [`operator`]: the operator: rebuilding its store, then processing batches.
//! - [`desc`], [`sinks`], [`expr`]: descriptions of sources, sinks and plans.

pub mod codec;
pub mod desc;
pub mod expr;
pub mod model;
pub mod operator;
pub mod scratch;
pub mod sinks;
pub mod state;
