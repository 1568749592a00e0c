use vstd::prelude::*;

verus! {

/// Failures of arena operations.
#[derive(Clone, Copy, Debug, PartialEq, Eq, Structural)]
pub enum ArenaError {
    /// A splice range had its end before its start, or reached past the
    /// current length.
    InvalidRange,
    /// A read range reached past the current length.
    OutOfBounds,
    /// A byte encoding did not consist of whole digests.
    MalformedBytes,
    /// The operating system refused a fresh anonymous mapping.
    AllocationFailed,
}

} // verus!
