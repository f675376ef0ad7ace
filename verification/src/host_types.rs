//! Result types of host-provided primitives.

use vstd::prelude::*;

verus! {

/// Why an ECDSA signature failed to verify.
#[derive(Copy, Clone, Debug, PartialEq, Eq, Structural)]
pub enum EcdsaVerifyError {
    /// Incorrect value of R or S.
    BadRS,
    /// Incorrect value of V.
    BadV,
    /// Invalid signature.
    BadSignature,
}

/// The outcome of asking the host to clear a storage prefix: how many keys
/// were removed, and whether any remain.
#[derive(Copy, Clone, Debug, PartialEq, Eq, Structural)]
pub enum KillStorageResult {
    /// Every key under the prefix was removed in this many iterations.
    AllRemoved(u32),
    /// Some keys remain; this many iterations were performed.
    SomeRemaining(u32),
}

} // verus!
