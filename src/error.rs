//! Failures of the checked bit-buffer operations.
use vstd::prelude::*;

verus! {

/// Why a checked read, write or seek did not happen.
#[derive(Debug, Clone, Copy, PartialEq, Eq, Structural)]
pub enum BitError {
    /// The operation would cross the end of the buffer (or seek before its start).
    Overflow,
    /// A variable-length integer ran past its longest encoding without ending.
    MalformedVarint,
    /// The destination cannot hold the requested number of bits.
    BufferTooSmall,
}

} // verus!
