//! The library's error type.

use vstd::prelude::*;

verus! {

/// Error raised while configuring or running a check.
#[derive(Debug)]
pub enum Error {
    /// A transport-level failure while probing a URL.
    Curl(String),
    /// A failure while walking the file tree.
    Ignore(String),
    /// An exclusion pattern with no parseable domain, carrying its text.
    InvalidPattern(String),
    /// An I/O failure while reading a file.
    Io(String),
}

/// Result type of this crate.
pub type LochResult<T> = core::result::Result<T, Error>;

impl Error {
    /// A human-readable description of the error.
    pub fn message(&self) -> (m: String)
        ensures
            match self {
                Error::Curl(s) => m@ == s@,
                Error::Ignore(s) => m@ == s@,
                Error::InvalidPattern(s) => m@ == "Invalid URL exclusion pattern: "@ + s@,
                Error::Io(s) => m@ == s@,
            },
    {
        match self {
            Error::Curl(s) => s.clone(),
            Error::Ignore(s) => s.clone(),
            Error::InvalidPattern(s) => String::from_str("Invalid URL exclusion pattern: ").concat(
                s.as_str(),
            ),
            Error::Io(s) => s.clone(),
        }
    }
}

} // verus!
