//! Quotients of two counts, kept as their terms.

use vstd::prelude::*;

verus! {

/// The quotient `numerator / denominator` of two counts; it stands for zero
/// where the denominator is zero. The terms are kept as they were counted,
/// not reduced.
#[derive(Clone, Copy, Debug, PartialEq, Eq, Structural)]
pub struct Ratio {
    pub numerator: u128,
    pub denominator: u128,
}

impl Ratio {
    /// The quotient is zero: nothing is divided, or there is nothing to
    /// divide by.
    pub open spec fn vanishes(&self) -> bool {
        self.numerator == 0 || self.denominator == 0
    }

    /// Whether the quotient is zero.
    pub fn is_zero(&self) -> (zero: bool)
        ensures
            zero == self.vanishes(),
    {
        self.numerator == 0 || self.denominator == 0
    }
}

} // verus!
