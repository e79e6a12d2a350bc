//! Concurrent orchestration of an external shell-script analysis tool:
//! batch planning, a bounded-concurrency pool model, a retry/split
//! orchestrator, and a multi-schema diagnostic-record aggregator.

use vstd::prelude::*;

pub mod bytes;
pub mod comment;
pub mod formatter;
pub mod gcc;
pub mod json;
pub mod laws;
pub mod num;
pub mod planner;
pub mod pool;
pub mod shellcheck;

verus! {

/// The library's own error kinds: the fatal conditions of a run.
#[derive(Clone, Copy, PartialEq, Eq, Structural, Debug)]
pub enum ShellcheckError {
    /// A successful invocation's output did not match the active schema.
    SchemaParse,
    /// The tool's version banner held no `version:` line.
    NoVersion,
}

} // verus!
