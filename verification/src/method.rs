//! Method identities and signatures.  A raw method handle is an opaque
//! identifier handed over by the observed runtime; a signature is the
//! resolved human-readable form.

use vstd::prelude::*;
use vstd::string::StringExecFns;

verus! {

/// An opaque identifier for a method, as delivered by the observed runtime.
#[derive(Clone, Copy, PartialEq, Eq, Structural, Debug)]
pub struct MethodId {
    pub native_id: u64,
}

/// A method known only by its identifier.
pub struct Method {
    pub id: MethodId,
}

/// A resolved method signature.
pub struct MethodSignature {
    pub name: String,
    pub signature: String,
    pub generic: String,
}

impl MethodSignature {
    pub fn new(raw_name: String, raw_signature: String, raw_generic: String) -> (r:
        MethodSignature)
        ensures
            r.name@ == raw_name@,
            r.signature@ == raw_signature@,
            r.generic@ == raw_generic@,
    {
        MethodSignature { name: raw_name, signature: raw_signature, generic: raw_generic }
    }

    /// The placeholder signature for a method the runtime could not identify.
    pub fn unknown() -> (r: MethodSignature)
        ensures
            r.name@ == "<UNKNOWN METHOD>"@,
            r.signature@ == "<UNKNOWN>"@,
            r.generic@ == "<UNKNOWN>"@,
    {
        MethodSignature {
            name: String::from_str("<UNKNOWN METHOD>"),
            signature: String::from_str("<UNKNOWN>"),
            generic: String::from_str("<UNKNOWN>"),
        }
    }
}

} // verus!
