//! A small regular-expression engine for searching lines of text.
//!
//! A pattern is compiled once into a [`re::Regex`]; the regex then decides, line
//! by line, whether the pattern occurs. Every executable function is verified
//! against a mathematical model of patterns and of matching, which the modules
//! under [`re`] define.
use crate::re::text::fits;
use vstd::prelude::*;

pub mod args;
pub mod error;
pub mod re;

pub use args::Args;
pub use error::Error;
pub use re::Regex;

verus! {

/// Whether the pattern occurs in one of `lines`, or the error that its text is
/// not a pattern.
pub fn match_pattern(lines: &Vec<String>, pattern: &str) -> (r: Result<bool, Error>)
    ensures
        match re::compile(pattern@) {
            Some(model) => r == Ok::<bool, Error>(
                exists|i: int|
                    0 <= i < lines@.len() && fits(lines@[i]@) && model.accepts(lines@[i]@),
            ),
            None => r == Err::<bool, Error>(Error::InvalidPattern),
        },
{
    let regex = match Regex::new(pattern) {
        Ok(regex) => regex,
        Err(err) => {
            return Err(err);
        },
    };
    let mut i: usize = 0;
    while i < lines.len()
        invariant
            i <= lines.len(),
            re::compile(pattern@) == Some(regex@),
            forall|j: int|
                0 <= j < i ==> !(fits(lines@[j]@) && regex@.accepts(lines@[j]@)),
        decreases lines.len() - i,
    {
        if regex.is_match(lines[i].as_str()) {
            return Ok(true);
        }
        i += 1;
    }
    Ok(false)
}

} // verus!
