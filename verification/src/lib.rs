//! Quartz: verified decision logic of a small self-modifying coding harness.
//!
//! The kernel declares components through manifests, composes them into
//! trees, patches those trees, journals compositions, and admits bounded
//! exchanges and repository mutations. The repository task and its
//! orchestrator validate every durable fact of a task session.

pub mod activation;
pub mod component;
pub mod digest;
pub mod composition;
pub mod dependency;
pub mod error;
pub mod exchange;
pub mod fiber;
pub mod journal;
pub mod json;
pub mod manifest;
pub mod orchestrator;
pub mod preparation;
pub mod queue;
pub mod recovery;
pub mod replacement;
pub mod repository;
pub mod schedule;
pub mod session;
pub mod snapshot;
pub mod status;
pub mod task;
pub mod text;
pub mod tree;
