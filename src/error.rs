//! Error values of parsing and resolving ranges.
use vstd::prelude::*;

verus! {

/// Why a `Range` header value could not be parsed.
#[derive(Debug, Clone, Copy, PartialEq, Eq, Structural)]
pub enum RangeRequestParseError {
    SyntaxError,
    UnsupportedUnit,
    EndBeforeStart,
    NotSequential,
    ZeroLengthTail,
}

/// Why a parsed range cannot be answered.
#[derive(Debug, Clone, Copy, PartialEq, Eq, Structural)]
pub enum RangeResponseError {
    OutOfRange(u64),
    RelativeSliceWithUnknownFullLength,
    RangesOverlap,
}

} // verus!
