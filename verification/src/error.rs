use vstd::prelude::*;

verus! {

/// The ways in which parsing or combining versions and ranges can fail.
#[derive(Clone, Copy, Debug, PartialEq, Eq, Structural)]
pub enum SemverError {
    /// The text does not match the version grammar, or a numeric component
    /// does not fit in a machine word.
    Parse,
    /// A range atom matches no constraint form.
    InvalidConstraint,
    /// Empty text was given to range parsing.
    EmptyRange,
    /// An interval's lower bound is not strictly below its upper bound.
    InvertedInterval,
    /// Two ranges share no satisfying version.
    NoIntersection,
}

} // verus!
