//! Exact note densities.

use vstd::prelude::*;

verus! {

/// Milliseconds in one second.
pub const MS_PER_SEC: u64 = 1000;

/// A density in notes per second, held as the fraction
/// `numerator / denominator`. The fraction is not reduced.
#[derive(Clone, Copy, Debug, PartialEq, Eq, Structural)]
pub struct Density {
    pub numerator: u128,
    pub denominator: u64,
}

impl Density {
    /// The density of `notes` events spread over `millis` milliseconds.
    pub open spec fn over(notes: int, millis: int) -> Density {
        Density { numerator: (notes * MS_PER_SEC) as u128, denominator: millis as u64 }
    }

    /// The density of `notes` events that all fall on one instant: the bare
    /// count, with no time to divide by.
    pub open spec fn bare(notes: int) -> Density {
        Density { numerator: notes as u128, denominator: 1 }
    }

    /// The density of an empty or instantaneous window.
    pub fn zero() -> (d: Density)
        ensures
            d == Density::bare(0),
    {
        Density { numerator: 0, denominator: 1 }
    }
}

} // verus!
