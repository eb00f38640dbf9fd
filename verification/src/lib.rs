//! A call-tree aggregation engine for a method-level profiler.
//!
//! A stream of method entry/exit events, or periodic stack snapshots with a
//! cumulative per-thread CPU-time reading, is merged into one hierarchical
//! call tree per observed thread.  Each tree is an append-only arena of
//! nodes annotated with call counts and accumulated durations, and can be
//! rendered as indented or compact text.

pub mod class;
pub mod config;
pub mod method;
pub mod profile;
pub mod text;
pub mod thread;
pub mod trace;
