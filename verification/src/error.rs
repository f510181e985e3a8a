//! Errors of the library.

use vstd::prelude::*;

verus! {

/// Why an operation of the library failed.
#[derive(Debug, Clone, Copy, PartialEq, Eq, Structural)]
pub enum BtcError {
    /// Bytes that should be UTF-8 text are not.
    InvalidUtf8,
    /// A message header names no known command.
    UnknownCommand,
    /// A payload could not be deserialized.
    Decoding,
}

/// The text that describes an error.
pub open spec fn error_text(e: BtcError) -> Seq<char> {
    match e {
        BtcError::InvalidUtf8 => "invalid utf-8 sequence"@,
        BtcError::UnknownCommand => "Unknown command in the server"@,
        BtcError::Decoding => "could not decode the data"@,
    }
}

impl BtcError {
    /// The text that describes this error.
    pub fn message(&self) -> (r: String)
        ensures
            r@ == error_text(*self),
    {
        match self {
            BtcError::InvalidUtf8 => "invalid utf-8 sequence".to_owned(),
            BtcError::UnknownCommand => "Unknown command in the server".to_owned(),
            BtcError::Decoding => "could not decode the data".to_owned(),
        }
    }
}

} // verus!
