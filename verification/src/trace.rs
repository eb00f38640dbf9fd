//! The event-driven tracing engine: per-thread call trees fed directly
//! by method entry and exit events carrying already-resolved names.

pub mod tree;
