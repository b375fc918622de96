//! The ways an operation of this library can refuse its input.

use vstd::prelude::*;

verus! {

/// Why an input was refused. Each kind is a fixed property of the input:
/// the same input is always refused the same way.
#[derive(Debug, Clone, Copy, PartialEq, Eq, Structural)]
pub enum CommitError {
    /// The input is not a whole number of elements, or has the wrong fixed size.
    InvalidLength,
    /// The vector is wider than the largest supported width.
    TooManyElements,
    /// An update names a position outside the vector.
    IndexOutOfRange,
    /// A group element encoding has no valid decompression.
    DecodeError,
    /// A generator set of an unsupported size, or from an empty seed, was asked for.
    InvalidCount,
}

} // verus!
