//! The ways a request can fail.

use crate::text::decimal;
use crate::text::push_decimal;
use vstd::prelude::*;

verus! {

/// Why a request failed.
#[derive(Debug, Clone, Copy, PartialEq, Eq, Structural)]
pub enum Error {
    /// The level is not one of 1 to 8.
    InvalidLevel,
    /// The piece fits nowhere on the board in any of its four orientations.
    CannotPlace { level: u8 },
}

/// The text of an error.
pub open spec fn error_text(e: Error) -> Seq<char> {
    match e {
        Error::InvalidLevel => "invalid lvl"@,
        Error::CannotPlace { level } => "could not insert tetrino lvl "@ + decimal(level as nat),
    }
}

impl Error {
    /// The error as a message for the host.
    pub fn message(&self) -> (text: String)
        ensures
            text@ == error_text(*self),
    {
        match self {
            Error::InvalidLevel => String::from_str("invalid lvl"),
            Error::CannotPlace { level } => {
                let mut text = String::from_str("could not insert tetrino lvl ");
                push_decimal(&mut text, *level);
                text
            },
        }
    }
}

} // verus!
