//! The pattern language, its parser and its matcher.
//!
//! [`Regex`] is the whole of it for a caller: a pattern text is compiled once,
//! and the regex then answers for any line whether the pattern occurs in it.
use crate::error::Error;
use crate::re::node::{lemma_find_bound, sequence_len, Node};
use crate::re::pattern::{nodes_of, parse_pattern, search_match_size, Pattern};
use crate::re::syntax::parse;
use crate::re::text::{
    byte_len, byte_len_of, fits, lemma_graphemes_before, suffix_at, text_at,
};
use vstd::prelude::*;
use vstd::string::StrSliceExecFns;

pub mod letter;
pub mod node;
pub mod pattern;
pub mod syntax;
pub mod text;
pub mod theorems;

verus! {

/// A compiled pattern, as a mathematical value.
pub struct RegexModel {
    /// Whether a match has to begin at the start of the line.
    pub start_anchor: bool,
    /// Whether a match has to end at the end of the line.
    pub end_anchor: bool,
    /// The nodes of the pattern, in order.
    pub nodes: Seq<Node>,
}

impl RegexModel {
    /// Where in `line` the one attempt to match is made: at the start of an
    /// anchored pattern, else at the first place at which the first node matches.
    pub open spec fn start(self, line: Seq<char>) -> Option<nat> {
        if self.start_anchor {
            Some(0nat)
        } else if self.nodes.len() == 0 {
            None
        } else {
            self.nodes[0].find(line)
        }
    }

    /// Whether the pattern occurs in `line`.
    ///
    /// One attempt is made, at [`RegexModel::start`]: the nodes have to match there
    /// as a sequence, and up to the end of the line where the pattern is anchored
    /// at its end.
    pub open spec fn accepts(self, line: Seq<char>) -> bool {
        match self.start(line) {
            Some(from) => match text_at(line, from as int) {
                Some(rest) => match sequence_len(self.nodes, rest) {
                    Some(taken) => !self.end_anchor || taken == byte_len(rest),
                    None => false,
                },
                None => false,
            },
            None => false,
        }
    }
}

/// Whether a pattern text is anchored at the start: it begins with `^`.
pub open spec fn has_start_anchor(text: Seq<char>) -> bool {
    text.len() > 0 && text[0] == '^'
}

/// Whether a pattern text is anchored at the end: behind the anchor at its
/// start, if it has one, something is left, and that ends with `$`.
pub open spec fn has_end_anchor(text: Seq<char>) -> bool {
    let text = if has_start_anchor(text) {
        text.drop_first()
    } else {
        text
    };
    text.len() > 0 && text.last() == '$'
}

/// A pattern text without its anchors.
pub open spec fn body(text: Seq<char>) -> Seq<char> {
    let text = if has_start_anchor(text) {
        text.drop_first()
    } else {
        text
    };
    if text.len() > 0 && text.last() == '$' {
        text.drop_last()
    } else {
        text
    }
}

/// The regex that a pattern text stands for, or `None` where the text is not a
/// pattern: where its body cannot be read to its end.
pub open spec fn compile(text: Seq<char>) -> Option<RegexModel> {
    let parsed = parse(body(text));
    if parsed.is_complete() {
        Some(
            RegexModel {
                start_anchor: has_start_anchor(text),
                end_anchor: has_end_anchor(text),
                nodes: parsed.nodes,
            },
        )
    } else {
        None
    }
}

/// A compiled pattern.
#[derive(Debug, PartialEq)]
pub struct Regex<'a> {
    start_anchor: bool,
    end_anchor: bool,
    patterns: Vec<Pattern<'a>>,
}

impl<'a> View for Regex<'a> {
    type V = RegexModel;

    closed spec fn view(&self) -> RegexModel {
        RegexModel {
            start_anchor: self.start_anchor,
            end_anchor: self.end_anchor,
            nodes: nodes_of(self.patterns@),
        }
    }
}

impl<'a> Regex<'a> {
    /// Compiles the pattern text `expr`.
    pub fn new(expr: &'a str) -> (r: Result<Self, Error>)
        ensures
            match compile(expr@) {
                Some(model) => r matches Ok(regex) && regex@ == model,
                None => r == Err::<Self, Error>(Error::InvalidPattern),
            },
    {
        let len = expr.unicode_len();
        let start_anchor = len > 0 && expr.get_char(0) == '^';
        let expr = if start_anchor {
            expr.substring_char(1, len)
        } else {
            expr
        };
        let len = expr.unicode_len();
        let end_anchor = len > 0 && expr.get_char(len - 1) == '$';
        let expr = if end_anchor {
            expr.substring_char(0, len - 1)
        } else {
            expr
        };
        let parsed = parse_pattern(expr);
        if !parsed.completed() {
            return Err(Error::InvalidPattern);
        }
        Ok(Self { start_anchor, end_anchor, patterns: parsed.patterns() })
    }

    /// Whether the pattern occurs in the line `s`. A line that fills the whole
    /// address space is never matched.
    pub fn is_match(&self, s: &str) -> (r: bool)
        ensures
            r == (fits(s@) && self@.accepts(s@)),
    {
        if byte_len_of(s) == usize::MAX {
            return false;
        }
        let mut cur_pos: usize = 0;
        if !self.start_anchor {
            if self.patterns.len() == 0 {
                return false;
            }
            cur_pos = match self.patterns[0].search_match_pos(s) {
                Some(pos) => pos,
                None => {
                    return false;
                },
            };
            proof {
                lemma_find_bound(self.patterns[0]@, s@);
            }
        }
        proof {
            lemma_graphemes_before(s@, cur_pos as int);
        }
        let s = suffix_at(s, cur_pos);
        let matched_pos = match search_match_size(self.patterns.as_slice(), s) {
            Some(size) => size,
            None => {
                return false;
            },
        };
        if self.end_anchor {
            return matched_pos == byte_len_of(s);
        }
        true
    }
}

} // verus!
