use vstd::prelude::*;

verus! {

/// Failures reported by the library's computations.
#[derive(Debug, Clone, Copy, PartialEq, Eq, Structural)]
pub enum GenericError {
    /// A mapping with zero length, or whose bounds do not fit in `usize`.
    MalformedMapping,
    /// A range whose end would not fit in `usize`, or a seed list that is not made of pairs.
    MalformedRange,
    /// A minimum was asked of an empty collection of ranges.
    EmptyRangeSet,
    /// A total that does not fit in its integer type.
    Overflow,
    /// Text that does not follow the expected input format.
    InvalidInput,
}

/// Result type used throughout the library.
pub type GenericResult<T> = Result<T, GenericError>;

} // verus!
