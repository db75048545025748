//! The closed set of error kinds shared by every decoder of the library.
use vstd::prelude::*;

verus! {

/// Every decoder reports one of these kinds; the payload is a human-readable detail.
#[derive(Debug)]
pub enum Error {
    /// Reading the underlying bytes failed.
    Io(String),
    /// Textual metadata is corrupt (missing key, unknown token, invalid UTF-8).
    Parse(String),
    /// Binary layout is inconsistent (magic mismatch, bounds violation, bad id).
    InvalidFormat(String),
    /// A format variant that this decoder deliberately declines.
    UnsupportedFeature(String),
    /// The requested column is not described by the segment metadata.
    ColumnNotFound(String),
}

pub type Result<T> = core::result::Result<T, Error>;

/// An `InvalidFormat` error carrying `msg`.
pub fn invalid_format(msg: &str) -> (e: Error)
    ensures
        e is InvalidFormat,
{
    Error::InvalidFormat(msg.to_owned())
}

/// A `Parse` error carrying `msg`.
pub fn parse_error(msg: &str) -> (e: Error)
    ensures
        e is Parse,
{
    Error::Parse(msg.to_owned())
}

/// An `UnsupportedFeature` error carrying `msg`.
pub fn unsupported(msg: &str) -> (e: Error)
    ensures
        e is UnsupportedFeature,
{
    Error::UnsupportedFeature(msg.to_owned())
}

impl Error {
    /// The text of the error: its kind followed by its detail.
    pub open spec fn message_of(&self) -> Seq<char> {
        match self {
            Error::Io(m) => "I/O error: "@ + m@,
            Error::Parse(m) => "Parse error: "@ + m@,
            Error::InvalidFormat(m) => "Invalid format: "@ + m@,
            Error::UnsupportedFeature(m) => "Unsupported feature: "@ + m@,
            Error::ColumnNotFound(m) => "Column not found: "@ + m@,
        }
    }

    /// The error rendered as text: its kind followed by its detail.
    pub fn message(&self) -> (r: String)
        ensures
            r@ == self.message_of(),
    {
        let (prefix, detail): (&str, &String) = match self {
            Error::Io(m) => ("I/O error: ", m),
            Error::Parse(m) => ("Parse error: ", m),
            Error::InvalidFormat(m) => ("Invalid format: ", m),
            Error::UnsupportedFeature(m) => ("Unsupported feature: ", m),
            Error::ColumnNotFound(m) => ("Column not found: ", m),
        };
        prefix.to_owned().concat(detail.as_str())
    }
}

} // verus!
