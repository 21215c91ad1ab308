//! What can go wrong when a pattern is compiled.
use vstd::prelude::*;

verus! {

/// Why a pattern text could not be compiled.
#[derive(Debug, Clone, Copy, PartialEq, Eq)]
pub enum Error {
    /// The text is not a pattern: it could not be read to its end, or it ends a
    /// scope that it did not open.
    InvalidPattern,
}

impl Error {
    /// A line of text that says what went wrong.
    pub fn message(&self) -> (r: &'static str)
        ensures
            r@ == "invalid pattern"@,
    {
        match self {
            Error::InvalidPattern => "invalid pattern",
        }
    }
}

} // verus!
