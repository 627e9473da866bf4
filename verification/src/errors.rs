//! The typed failures that reading one device can produce.

use vstd::prelude::*;
use vstd::string::StringExecFns;

verus! {

/// Everything that can go wrong while reading and decoding one device's
/// configuration document. Each failure aborts the current device only;
/// an enumeration over several devices records the failure and moves on.
#[derive(Clone, Debug, PartialEq, Eq)]
pub enum Error {
    /// Failure at the device-handle level: opening, writing or reading.
    Transport(String),
    /// A fixed-size report write reported fewer bytes written than the
    /// frame holds. A partial write of a fixed-size report indicates a
    /// transport fault, not congestion, and is not retried.
    WriteMismatch { expected: usize, written: usize },
    /// A response did not echo the requested page address, or was too
    /// short to hold the echo header (or, for page 0, the length header).
    ConfirmationMismatch,
    /// The assembled document bytes are not valid UTF-8.
    Encoding,
    /// The document text does not match the expected schema.
    SchemaParse(String),
    /// The document parsed, but declares a version other than the one
    /// supported; the offending version string is carried along.
    UnsupportedVersion(String),
}

impl Error {
    /// A human-readable description of the failure.
    pub fn message(&self) -> (r: String)
        ensures
            match self {
                Error::Transport(m) => r@ == "transport error: "@ + m@,
                Error::WriteMismatch { .. } => r@ == "report write was shorter than the request frame"@,
                Error::ConfirmationMismatch => r@ == "response did not confirm the requested page address"@,
                Error::Encoding => r@ == "configuration document is not valid UTF-8"@,
                Error::SchemaParse(m) => r@ == "could not read the configuration document: "@ + m@,
                Error::UnsupportedVersion(v) => r@ == "don't know how to read config version "@ + v@,
            },
    {
        match self {
            Error::Transport(m) => String::from_str("transport error: ").concat(m.as_str()),
            Error::WriteMismatch { .. } => String::from_str(
                "report write was shorter than the request frame",
            ),
            Error::ConfirmationMismatch => String::from_str(
                "response did not confirm the requested page address",
            ),
            Error::Encoding => String::from_str("configuration document is not valid UTF-8"),
            Error::SchemaParse(m) => String::from_str(
                "could not read the configuration document: ",
            ).concat(m.as_str()),
            Error::UnsupportedVersion(v) => String::from_str(
                "don't know how to read config version ",
            ).concat(v.as_str()),
        }
    }
}

} // verus!
