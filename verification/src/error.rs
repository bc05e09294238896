use vstd::prelude::*;

verus! {

/// Why an integer could not be read from a string of digits.
#[derive(Debug, PartialEq, Eq, Clone, Copy)]
pub enum IntErrorKind {
    /// There were no digits at all.
    Empty,
    /// The digits denote a number larger than `isize::MAX`.
    PosOverflow,
}

/// The errors of this library.
#[derive(Debug, PartialEq, Eq, Clone)]
pub enum NotationError {
    Basic,
    Generic(String),
    ComplexError(String),
    QuickCodeError(String),
    DurationError(String),
    /// A string that should hold an integer does not.
    ParseInt(IntErrorKind),
}

} // verus!
