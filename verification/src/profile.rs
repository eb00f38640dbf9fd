//! The sampling-capable profiling engine: per-thread call trees, the
//! registry that owns them, and the sample reconciliation that feeds them.

pub mod laws;
pub mod sample;
pub mod stack_trace;
pub mod tree;
