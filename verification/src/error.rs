//! The ways in which a comparison fails.

use vstd::prelude::*;

verus! {

/// A fatal fault in the input. Nothing is returned beside it.
#[derive(Clone, Copy, Debug, PartialEq, Eq, Structural)]
pub enum CompareError {
    /// The file has no header line.
    EmptyFile,
    /// A file does not hold every requested haplotype.
    SampleMismatch,
    /// The data row with this number, counted from 0, has fewer columns than it needs.
    ShortRow { row: usize },
    /// A coordinate of the data row with this number, counted from 0, is no number.
    BadCoordinate { row: usize },
    /// The label matrix does not have one row per window and one label per column.
    ShapeMismatch,
}

} // verus!
