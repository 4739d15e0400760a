use vstd::prelude::*;

verus! {

/// Why a run was refused, with the offending detail.
#[derive(Debug, Clone, PartialEq, Eq)]
pub enum TSPError {
    /// No line is left once blank lines and `#` comments are dropped.
    EmptyInput,
    /// The layout of the lines cannot be recognised.
    MalformedLayout,
    /// A matrix row (counted from 1) holds a token that is not a number.
    InvalidNumber { row: usize },
    /// A row (counted from 1) has `found` entries instead of `expected`;
    /// with no row, the matrix has `found` rows instead of `expected`.
    DimensionMismatch { in_row: Option<usize>, found: usize, expected: usize },
    /// Fewer than two cities.
    TooFewCities { count: usize },
    /// More cities than the exact solver accepts.
    TooManyCities { count: usize },
    /// The distance from a city to itself is not zero.
    NonZeroDiagonal { city: usize },
    /// A distance is negative.
    NegativeDistance { from: usize, to: usize },
    /// A file or directory that the run needs does not exist.
    FileNotFound(String),
    /// Every candidate name for the output file is taken.
    TooManyOutputAttempts,
}

} // verus!
