//! The failure taxonomy of the pipeline.  Every failure is fatal: no error
//! is recovered or downgraded, and each carries the offending text.

use vstd::prelude::*;

verus! {

/// Why a run of the pipeline stopped.
#[derive(Debug)]
pub enum Error {
    /// A token does not fit the `central(uncertainty)` grammar, or a number
    /// in it is not a decimal the library can hold exactly.
    Parse { token: Vec<u8> },
    /// A line carries the wrong number of columns for its table.
    MalformedRecord { line: Vec<u8> },
    /// The paired subset for the regression is empty, or its denominator
    /// sums to zero.
    Normalization,
    /// An exact intermediate value left the range of a 128-bit integer.
    Capacity,
}

} // verus!
