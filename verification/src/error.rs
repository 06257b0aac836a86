//! Error kinds surfaced by the codec.
//!
//! The codec is infallible on well-formed input; these errors report
//! malformed bytes found by the decoders, a row that is not fully consumed
//! once every column has been decoded, and exhaustion of the categorical
//! code space.

use vstd::prelude::*;

verus! {

/// Why a decode pass rejected its input.
#[derive(Clone, Copy, PartialEq, Eq, Structural, Debug)]
pub enum DecodeError {
    /// A row ended before the current value's encoding was complete.
    UnexpectedEnd,
    /// A byte inside a variable-length payload is outside the shifted range.
    InvalidByte,
    /// A row still holds bytes after every column has been decoded.
    TrailingBytes,
    /// The categorical dictionary has no free code left.
    CodeSpaceExhausted,
}

/// Why an encode pass rejected its input.
#[derive(Clone, Copy, PartialEq, Eq, Structural, Debug)]
pub enum EncodeError {
    /// The total encoded size does not fit in a machine word.
    TooLarge,
}

} // verus!
