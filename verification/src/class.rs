//! Class identities and signatures, the declaring-class side of a resolved
//! method name.

use vstd::prelude::*;

verus! {

/// An opaque identifier for a loaded class.
#[derive(Clone, Copy, PartialEq, Eq, Structural, Debug)]
pub struct ClassId {
    pub native_id: u64,
}

/// A resolved class signature: the qualified class name.
pub struct ClassSignature {
    pub name: String,
}

impl ClassSignature {
    pub fn new(name: String) -> (r: ClassSignature)
        ensures
            r.name@ == name@,
    {
        ClassSignature { name }
    }
}

} // verus!
