//! The ways in which an operation of the library can fail.
use vstd::prelude::*;

verus! {

/// Why an operation gave no result.
#[derive(Clone, Copy, PartialEq, Eq, Structural, Debug)]
pub enum Failure {
    /// A coefficient, a total degree or a parameter ordinal that the
    /// operation needs cannot be represented.
    Overflow,
    /// The divisor of a remainder has a larger total degree than the
    /// dividend.
    DegreeMismatch,
    /// The linear system has no solution, or the difference of two
    /// templates that have to agree has a leading coefficient without
    /// parameter.
    Unsatisfiable,
    /// An exponent in the text of a polynomial is not a tower of numbers
    /// that are not negative.
    BadExponent,
}

} // verus!
