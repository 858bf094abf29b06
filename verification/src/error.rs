//! The errors of the crate.

use vstd::prelude::*;

verus! {

/// What can go wrong on the way from a text to a rendered program or a
/// described transaction. Each kind but the first carries the message of the
/// error that it stands for.
#[derive(Clone, Debug, PartialEq, Eq)]
pub enum Error {
    /// Text could not be formatted.
    Fmt,
    /// Input or output failed.
    IO(String),
    /// The bytes are not those of a transaction.
    Encode(String),
    /// A description could not be written as JSON.
    Json(String),
    /// The text is not base64.
    Base64(String),
    /// The bytes are not those of a program.
    Simplicity(String),
}

impl Error {
    /// The message of the error.
    pub fn message(&self) -> (text: String)
        ensures
            text@ == match *self {
                Error::Fmt => "an error occurred when formatting an argument"@,
                Error::IO(m) => m@,
                Error::Encode(m) => m@,
                Error::Json(m) => m@,
                Error::Base64(m) => m@,
                Error::Simplicity(m) => m@,
            },
    {
        match self {
            Error::Fmt => "an error occurred when formatting an argument".to_owned(),
            Error::IO(m) => m.clone(),
            Error::Encode(m) => m.clone(),
            Error::Json(m) => m.clone(),
            Error::Base64(m) => m.clone(),
            Error::Simplicity(m) => m.clone(),
        }
    }
}

} // verus!
