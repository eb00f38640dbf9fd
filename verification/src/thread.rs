//! Thread identities as the observed runtime reports them.

use vstd::prelude::*;

verus! {

/// An opaque identifier linking an observed thread to the engine's records.
#[derive(Clone, Copy, PartialEq, Eq, Structural, Hash, Debug)]
pub struct ThreadId {
    pub native_id: u64,
}

/// What the runtime reports about one thread.
#[derive(Clone, Debug)]
pub struct Thread {
    pub id: ThreadId,
    pub name: String,
    pub priority: u32,
    pub is_daemon: bool,
}

} // verus!
