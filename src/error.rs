//! Errors raised by the map library.
use vstd::prelude::*;

verus! {

/// The ways in which an operation on a map, a room or a point can fail.
#[derive(Debug)]
pub enum RpgError {
    /// A coordinate did not fit in the integer width it was converted to.
    PointConversion(core::num::TryFromIntError),
    /// A coordinate lies outside of the map.
    OutOfBounds,
    /// An operation needed a non-empty room or search result and found none.
    Empty(String),
}

impl RpgError {
    /// A short human-readable description of the error.
    pub fn message(&self) -> String {
        match self {
            RpgError::PointConversion(_) => "could not convert point".to_string(),
            RpgError::OutOfBounds => "out of map bounds".to_string(),
            RpgError::Empty(_) => "unexpectedly empty".to_string(),
        }
    }
}

} // verus!
