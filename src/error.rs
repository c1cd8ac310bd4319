use vstd::prelude::*;

verus! {

/// A common error variant returned by this library.
#[derive(Debug)]
pub enum Error {
    /// Returned when an unknown pixel is attempted to be processed.
    UnknownPixel(String),
    /// Returned when decompression of a file fails.
    DecompressionError(String),
    /// Returned when an IO operation fails.
    IoError(String),
    /// Returned when a non-specific, miscellaneous error occurs.
    Other(String),
}

impl Error {
    /// The message carried by any variant.
    pub open spec fn message(&self) -> String {
        match self {
            Error::UnknownPixel(e) => *e,
            Error::DecompressionError(e) => *e,
            Error::IoError(e) => *e,
            Error::Other(e) => *e,
        }
    }

    /// Returns a reference to the inner string of the error.
    pub fn inner(&self) -> (r: &String)
        ensures
            *r == self.message(),
    {
        match self {
            Error::UnknownPixel(e) => e,
            Error::DecompressionError(e) => e,
            Error::IoError(e) => e,
            Error::Other(e) => e,
        }
    }
}

} // verus!
