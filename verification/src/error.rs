//! Failure values of the density computations.

use vstd::prelude::*;

verus! {

/// Why a density computation returned no result.
#[derive(Clone, Copy, Debug, PartialEq, Eq, Structural)]
pub enum NpsError {
    /// A bucket count or a frequency that is not positive.
    InvalidArgument,
    /// The beatmap holds no hit object.
    EmptyInput,
    /// A position that names no hit object of the beatmap.
    OutOfRange,
}

/// Why a line of a beatmap file yields no hit object.
#[derive(Clone, Copy, Debug, PartialEq, Eq, Structural)]
pub enum NoteError {
    /// The line has fewer than three comma-separated fields.
    MissingField,
    /// The third field is not a decimal number that an `i32` can hold.
    InvalidNumber,
}

} // verus!
