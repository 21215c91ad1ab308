//! What the search is asked to do.
use vstd::prelude::*;

verus! {

/// The arguments of one search.
#[derive(Debug)]
pub struct Args {
    /// Whether the pattern is to be read as an extended regular expression.
    pub extend: bool,
    /// The pattern text.
    pub pattern: String,
}

} // verus!
