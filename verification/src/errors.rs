//! The failures that the codec reports.
use vstd::prelude::*;

verus! {

/// Everything that can go wrong inside the codec.
#[derive(Clone, Copy, Debug, PartialEq, Eq, Structural)]
pub enum Error {
    /// A token was asked for with a length field of 0 bits or of 16 and more.
    InvalidFieldSize,
    /// A value does not fit into the bits of the field it was meant for.
    FieldOverflow,
    /// The window size of the options lies outside 1..=15.
    InvalidWindowSize,
    /// The compressed stream ends inside a token or inside a payload.
    UnexpectedEnd,
    /// A match record points further back than the window reaches.
    InvalidDistance,
    /// Bytes were fed to a stream that had been declared complete.
    StreamClosed,
}

impl Error {
    /// A short description of the failure.
    pub fn message(&self) -> (text: &'static str)
        ensures
            (*self == Error::InvalidFieldSize) ==> text@ == "CodeWord length field has invalid size"@,
            (*self == Error::FieldOverflow) ==> text@ == "Field too long for CodeWord"@,
            (*self == Error::InvalidWindowSize) ==> text@ == "Window size must be between 1 and 15"@,
            (*self == Error::UnexpectedEnd) ==> text@ == "Compressed stream ends inside a record"@,
            (*self == Error::InvalidDistance) ==> text@ == "Match distance reaches before the window"@,
            (*self == Error::StreamClosed) ==> text@ == "Compressed stream is already complete"@,
    {
        match self {
            Error::InvalidFieldSize => "CodeWord length field has invalid size",
            Error::FieldOverflow => "Field too long for CodeWord",
            Error::InvalidWindowSize => "Window size must be between 1 and 15",
            Error::UnexpectedEnd => "Compressed stream ends inside a record",
            Error::InvalidDistance => "Match distance reaches before the window",
            Error::StreamClosed => "Compressed stream is already complete",
        }
    }
}

} // verus!
