//! Ordered-content versioning and diff engine for stack items.
//!
//! A stack item is an ordered sequence of text blocks, each annotated with
//! character-range marks.  The library validates caller-supplied change sets,
//! classifies every block and mark as new, removed, unchanged or modified,
//! preserves superseded state as immutable history snapshots, and produces the
//! new canonical ordered state with contiguous order values and monotonically
//! increasing per-block versions.
#![verifier::loop_isolation(false)]

pub mod changes;
pub mod errors;
pub mod ids;
pub mod laws;
pub mod repos;
pub mod services;
