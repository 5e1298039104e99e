//! The ways in which decoding a fixture file can fail.

use vstd::prelude::*;

verus! {

/// Why a fixture file, or a part of one, was rejected.
#[derive(Clone, Copy, Debug, PartialEq, Eq, Structural)]
pub enum ParseError {
    /// The text at the start of a field is not the label of that field.
    LabelMismatch,
    /// The text ended before a field, a list or a group was closed.
    TruncatedInput,
    /// A byte field has an odd number of digits, or a character that is no
    /// hexadecimal digit.
    HexDecodeError,
    /// A number is not a decimal integer of the expected form and range.
    IntegerParseError,
    /// A field holds another number of items than its shape asks for.
    DimensionMismatch,
    /// The record indices are not 0, 1, 2, ... in file order.
    SequenceGapError,
}

} // verus!
