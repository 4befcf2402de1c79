//! Error taxonomy of the library.

use vstd::prelude::*;

verus! {

/// Errors raised by the image buffer and its pixel-level operations.
#[derive(Clone, Copy, Debug, PartialEq, Eq, Structural)]
pub enum CoreError {
    /// A coordinate was at or beyond the corresponding image dimension.
    OutOfBounds,
    /// A buffer length or a pair of dimensions did not match.
    InvalidData,
    /// A rescaled channel value could not be represented in the target
    /// primitive.
    InvalidCast,
}

/// Errors raised by the filtering and point-operation layer.
#[derive(Clone, Copy, Debug, PartialEq, Eq, Structural)]
pub enum Error {
    /// An error propagated from, or phrased in terms of, the core buffer
    /// operations.
    CoreError(CoreError),
}

} // verus!
