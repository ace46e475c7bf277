//! The failures that a conversion can report.

use vstd::prelude::*;

verus! {

/// Why a conversion stopped. No conversion returns partial output.
#[derive(Clone, Copy, Debug, PartialEq, Eq, Structural)]
pub enum CodecError {
    /// A byte is not a digit of the representation being read.
    InvalidDigit,
    /// Two operands differ in length, or a bit sequence does not divide
    /// into whole digits.
    LengthMismatch,
    /// A positional value does not fit in eight bits.
    Overflow,
    /// The number of base64 symbols leaves a remainder of one modulo four,
    /// which no amount of `=` padding can complete.
    PaddingInconsistency,
}

} // verus!
