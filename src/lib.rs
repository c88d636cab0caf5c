//! Coordination core of a fixed-size worker pool.
//!
//! The pool's threads, locks and blocking live with the caller; this crate
//! holds every decision they act on: how many workers a pool gets, which job a
//! worker claims next, when a worker stops, and what a drained pool returns.
pub mod dispatch;
pub mod sizing;
