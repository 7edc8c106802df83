//! The failures that the toolkit reports.

use vstd::prelude::*;

verus! {

/// Why an operation of the toolkit failed.
#[derive(Clone, Copy, Debug, PartialEq, Eq, Structural)]
pub enum Error {
    /// Two inputs that must agree in length do not, or an input is not a
    /// whole number of blocks, or a key or IV has the wrong length.
    LengthMismatch,
    /// A text holds a byte that is neither a letter, nor printable ASCII, nor
    /// tab, line feed or carriage return.
    InvalidByte,
    /// A hex or base64 text holds a character outside its alphabet.
    DecodeError,
}

impl Error {
    /// The text of the message for each kind of failure.
    pub open spec fn message_spec(self) -> Seq<char> {
        match self {
            Error::LengthMismatch => "length not equal of params"@,
            Error::InvalidByte => "Impossible Charactere sequence"@,
            Error::DecodeError => "Invalid base64 sequence"@,
        }
    }

    /// A short message for the failure.
    pub fn message(&self) -> (r: &'static str)
        ensures
            r@ == self.message_spec(),
    {
        match self {
            Error::LengthMismatch => "length not equal of params",
            Error::InvalidByte => "Impossible Charactere sequence",
            Error::DecodeError => "Invalid base64 sequence",
        }
    }
}

} // verus!
