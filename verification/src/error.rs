//! The errors a map generation can surface. They are all configuration or
//! precondition failures raised before generation starts; the algorithms
//! themselves have no failing paths.

use vstd::prelude::*;

verus! {

/// Why a board could not be generated.
#[derive(Debug, Copy, Clone, Eq, PartialEq, Structural)]
pub enum Error {
    /// The board size was omitted and the terminal geometry is unknown, so
    /// no size could be determined.
    CannotDetermineTermsize,
    /// The requested size is too small for the chosen resolution: its
    /// size-derived parameters would leave their ranges.
    BoardTooSmall,
}

/// The description of each error.
pub open spec fn spec_message(e: Error) -> Seq<char> {
    match e {
        Error::CannotDetermineTermsize => "Cannot determine terminal size"@,
        Error::BoardTooSmall => "Board size is too small for this resolution"@,
    }
}

impl Error {
    /// A human-readable description of the error.
    pub fn message(&self) -> (r: &'static str)
        ensures
            r@ == spec_message(*self),
    {
        match self {
            Error::CannotDetermineTermsize => "Cannot determine terminal size",
            Error::BoardTooSmall => "Board size is too small for this resolution",
        }
    }
}

} // verus!
