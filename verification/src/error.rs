//! The ways in which reading or editing a PNG byte stream can fail.

use vstd::prelude::*;
use vstd::std_specs::convert::FromSpecImpl;

verus! {

/// Why an operation of this crate refused its input.
#[derive(Debug, Clone, Copy, PartialEq, Eq, Structural)]
pub enum Error {
    /// A chunk type is not made of exactly four ASCII letters.
    InvalidType,
    /// The checksum stored in a chunk differs from the one computed over
    /// its type and data.
    ChecksumMismatch,
    /// The buffer ends before a field of the declared width.
    Truncated,
    /// The buffer does not start with the eight signature bytes.
    SignatureMismatch,
    /// Chunk data asked for as text is not valid UTF-8.
    Utf8,
    /// No chunk of the requested type is in the container.
    NotFound,
}

impl Error {
    /// The text that `message` returns for each variant.
    pub open spec fn spec_message(self) -> Seq<char> {
        match self {
            Error::InvalidType => "invalid chunk type: four ASCII letters are required"@,
            Error::ChecksumMismatch => "invalid crc"@,
            Error::Truncated => "buffer ends inside a chunk"@,
            Error::SignatureMismatch => "not a PNG file: signature mismatch"@,
            Error::Utf8 => "chunk data is not valid UTF-8"@,
            Error::NotFound => "no chunk of that type"@,
        }
    }

    /// A short human-readable description of the failure.
    pub fn message(&self) -> (text: &'static str)
        ensures
            text@ == self.spec_message(),
    {
        match self {
            Error::InvalidType => "invalid chunk type: four ASCII letters are required",
            Error::ChecksumMismatch => "invalid crc",
            Error::Truncated => "buffer ends inside a chunk",
            Error::SignatureMismatch => "not a PNG file: signature mismatch",
            Error::Utf8 => "chunk data is not valid UTF-8",
            Error::NotFound => "no chunk of that type",
        }
    }
}

impl From<std::string::FromUtf8Error> for Error {
    /// A failed conversion of bytes to a string is reported as bad UTF-8.
    fn from(e: std::string::FromUtf8Error) -> (res: Error) {
        Error::Utf8
    }
}

impl FromSpecImpl<std::string::FromUtf8Error> for Error {
    open spec fn obeys_from_spec() -> bool {
        true
    }

    open spec fn from_spec(e: std::string::FromUtf8Error) -> Error {
        Error::Utf8
    }
}

} // verus!
