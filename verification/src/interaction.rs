//! Answer types exchanged with an interactive front end.
//!
//! The prompts themselves are I/O and live outside the library; these types
//! carry the decisions they produce.

use vstd::prelude::*;

verus! {

/// A yes/no answer to a confirmation prompt.
#[derive(PartialEq, Eq, Structural)]
pub enum PolarAnswer {
    Yes,
    No,
}

impl PolarAnswer {
    /// `Yes` maps to `true`, `No` to `false`.
    pub fn to_bool(&self) -> (r: bool)
        ensures
            r == (self is Yes),
    {
        match self {
            Self::Yes => true,
            Self::No => false,
        }
    }

    /// Inverse of [`PolarAnswer::to_bool`].
    pub fn from_bool(v: bool) -> (r: PolarAnswer)
        ensures
            (r is Yes) == v,
    {
        match v {
            true => Self::Yes,
            false => Self::No,
        }
    }
}

/// Whether a free-text prompt may be answered with an empty string.
#[derive(PartialEq, Eq, Structural)]
pub enum Feat {
    NonEmpty,
    Empty,
}

impl Feat {
    /// `true` exactly when empty input is allowed.
    pub fn to_bool(&self) -> (r: bool)
        ensures
            r == (self is Empty),
    {
        match self {
            Self::NonEmpty => false,
            Self::Empty => true,
        }
    }
}

} // verus!
