//! The arithmetic that elimination and iteration ask of a cell.

use vstd::prelude::*;

verus! {

/// A number type with the operations of a field and two comparisons.
///
/// Each operation has a specification twin, and the contract of the operation is
/// that it computes its twin: an implementation has to be a function of its
/// arguments. Nothing else is asked, so rounding arithmetic qualifies; no algebraic
/// law is assumed anywhere in this crate.
pub trait Scalar: Copy {
    spec fn spec_zero() -> Self;

    spec fn spec_one() -> Self;

    spec fn spec_is_zero(self) -> bool;

    spec fn spec_plus(self, other: Self) -> Self;

    spec fn spec_minus(self, other: Self) -> Self;

    spec fn spec_times(self, other: Self) -> Self;

    spec fn spec_over(self, other: Self) -> Self;

    spec fn spec_negated(self) -> Self;

    spec fn spec_magnitude(self) -> Self;

    spec fn spec_exceeds(self, other: Self) -> bool;

    spec fn spec_below(self, other: Self) -> bool;

    /// The additive identity.
    fn zero() -> (value: Self)
        ensures
            value == Self::spec_zero(),
    ;

    /// The multiplicative identity.
    fn one() -> (value: Self)
        ensures
            value == Self::spec_one(),
    ;

    /// Whether the value compares equal to zero.
    fn is_zero(self) -> (answer: bool)
        ensures
            answer == self.spec_is_zero(),
    ;

    fn plus(self, other: Self) -> (value: Self)
        ensures
            value == self.spec_plus(other),
    ;

    fn minus(self, other: Self) -> (value: Self)
        ensures
            value == self.spec_minus(other),
    ;

    fn times(self, other: Self) -> (value: Self)
        ensures
            value == self.spec_times(other),
    ;

    /// Division. A zero divisor is not excluded: what comes of it is up to the type.
    fn over(self, other: Self) -> (value: Self)
        ensures
            value == self.spec_over(other),
    ;

    fn negated(self) -> (value: Self)
        ensures
            value == self.spec_negated(),
    ;

    /// The absolute value.
    fn magnitude(self) -> (value: Self)
        ensures
            value == self.spec_magnitude(),
    ;

    /// Whether `self` comes strictly after `other` in the order by which pivots are chosen.
    fn exceeds(self, other: Self) -> (answer: bool)
        ensures
            answer == self.spec_exceeds(other),
    ;

    /// Whether `self` is strictly less than `other`; `false` where the two do not compare.
    fn below(self, other: Self) -> (answer: bool)
        ensures
            answer == self.spec_below(other),
    ;
}

} // verus!
