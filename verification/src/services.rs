//! The engine's service layer: the pure diff classification, the stateful
//! update orchestration over the in-memory store, and the group ordering
//! helpers.
pub mod diff;
pub mod groups;
pub mod stack;
