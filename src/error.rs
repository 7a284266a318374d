use vstd::prelude::*;

verus! {

/// Failures reported by the tree and by proof handling.
#[derive(Debug, Clone, Copy, PartialEq, Eq, Structural)]
pub enum Error {
    /// A key or the number of leaves is past the supported bound.
    KeyOutOfRange,
    /// A proof is structurally inconsistent, truncated, or has leftovers.
    MalformedProof,
    /// The backing store reported a failure.
    StorageFailure,
    /// The input is not acceptable (for instance, no key for a proof).
    InvalidInput,
}

} // verus!
