//! The ways in which the corpus service can fail.

use vstd::prelude::*;

verus! {

/// Every failure of the corpus service.
#[derive(Debug)]
pub enum Error {
    /// Reading the corpus failed; the text describes the failure.
    Io(String),
    /// A download response could not be built; the text says why.
    NamedBinary(String),
    /// The server's key file holds more than one private key: it held this many.
    TooMayPrivateKeys(usize),
    /// The TLS layer failed; the text describes the failure.
    Tls(String),
    /// No word of the corpus meets both the length and the occurrence threshold.
    EmptySelection,
}

impl Error {
    /// Whether this is the failure to find any word to pick.
    pub fn is_empty_selection(&self) -> (r: bool)
        ensures
            r <==> self is EmptySelection,
    {
        match self {
            Error::EmptySelection => true,
            _ => false,
        }
    }
}

} // verus!
