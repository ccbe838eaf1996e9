//! The error values parsing and record construction return.

use vstd::prelude::*;

verus! {

/// Why a string could not become an expense record, or a stored line could
/// not be read back.
#[derive(Debug, Clone)]
pub enum CostOfLifeError {
    /// A recurrence token was recognised but its numbers are unusable.
    InvalidLifetimeFormat(String),
    /// A date or timestamp field does not name a real calendar day.
    InvalidDateFormat(String),
    /// The amount is missing, malformed, not positive or out of range.
    InvalidAmount(String),
    /// Anything else, such as a malformed stored line.
    GenericError(String),
}

impl CostOfLifeError {
    /// The message carried by the error.
    pub fn message(&self) -> (r: &String)
        ensures
            r@ == match self {
                CostOfLifeError::InvalidLifetimeFormat(m) => m@,
                CostOfLifeError::InvalidDateFormat(m) => m@,
                CostOfLifeError::InvalidAmount(m) => m@,
                CostOfLifeError::GenericError(m) => m@,
            },
    {
        match self {
            CostOfLifeError::InvalidLifetimeFormat(m) => m,
            CostOfLifeError::InvalidDateFormat(m) => m,
            CostOfLifeError::InvalidAmount(m) => m,
            CostOfLifeError::GenericError(m) => m,
        }
    }
}

} // verus!
