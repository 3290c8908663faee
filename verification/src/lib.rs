//! Core of a content-addressed build/job execution engine.
//!
//! Jobs are units of declared work: a command, declared input files, and
//! declared output paths. Each job gets a deterministic fingerprint; a
//! dependency graph links producers to consumers; a coordinator schedules
//! execution, deduplicates identical work, and skips jobs whose results are
//! already in the content-addressed store.

pub mod canon;
pub mod coordinator;
pub mod fingerprint;
pub mod graph;
pub mod job;
pub mod paths;
pub mod store;
pub mod workspace;

use vstd::prelude::*;

verus! {

} // verus!
