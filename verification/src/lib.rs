//! Replicated cache for a multi-cluster broker monitor.
//!
//! Several independent instances of the monitor converge on the same view of
//! cluster state by writing every update to a shared commit-log topic and
//! replaying that topic from its earliest retained position. This crate holds
//! the replicated core: the wire codec for log entries, the materialized map
//! with last-writer-wins semantics by source position, the cache facade that
//! funnels every local write through the log, and the per-cluster metadata
//! fetch scheduler. Broker transport and the web front end are left to the
//! surrounding binary.

pub mod cache;
pub mod codec;
pub mod error;
pub mod metadata;
pub mod scheduler;
