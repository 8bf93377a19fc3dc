//! Storage-level row types: the normalized shape in which stack items,
//! blocks, marks, users and history snapshots are persisted, and the
//! append-only history store.
pub mod blocks;
pub mod marks;
pub mod stack;
pub mod stack_history;
pub mod users;
