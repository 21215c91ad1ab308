//! The pattern language: how a pattern text reads as a sequence of nodes.
//!
//! A pattern is read from left to right, one token at a time. A group or an
//! alternation is a scope: it is read by the same rules, up to the token that
//! closes it. Reading stops in front of the first token that cannot be read: a
//! backslash at the end of the text, a quantifier with no node in front of it, or
//! the opening of a scope that is not closed by its own closing token.
use crate::re::node::Node;
use vstd::prelude::*;

verus! {

/// What one place of a pattern text says.
pub enum Token {
    /// A node that is complete in itself.
    Itself(Node),
    /// `*`
    MoreThanZero,
    /// `+`
    MoreThanOne,
    /// `?`
    ZeroOrOne,
    /// `[`
    PGroupOpen,
    /// `[^`
    NGroupOpen,
    /// `]`
    GroupClose,
    /// `(`
    AltOpen,
    /// `)`
    AltClose,
    /// `|`
    AltDelimiter,
}

/// The token at the start of `text`, and the number of graphemes that it is
/// written with. There is none at the end of the text, and none at a backslash
/// that nothing follows.
pub open spec fn pick(text: Seq<char>) -> Option<(Token, int)> {
    if text.len() == 0 {
        None
    } else if text[0] == '\\' {
        if text.len() == 1 {
            None
        } else if text[1] == 'w' {
            Some((Token::Itself(Node::AlphaNumeric), 2))
        } else if text[1] == 'd' {
            Some((Token::Itself(Node::Digit), 2))
        } else {
            Some((Token::Itself(Node::Lit(seq![text[1]])), 2))
        }
    } else if text[0] == '.' {
        Some((Token::Itself(Node::Wildcard), 1))
    } else if text[0] == '[' {
        if text.len() > 1 && text[1] == '^' {
            Some((Token::NGroupOpen, 2))
        } else {
            Some((Token::PGroupOpen, 1))
        }
    } else if text[0] == ']' {
        Some((Token::GroupClose, 1))
    } else if text[0] == '+' {
        Some((Token::MoreThanOne, 1))
    } else if text[0] == '*' {
        Some((Token::MoreThanZero, 1))
    } else if text[0] == '?' {
        Some((Token::ZeroOrOne, 1))
    } else if text[0] == '(' {
        Some((Token::AltOpen, 1))
    } else if text[0] == ')' {
        Some((Token::AltClose, 1))
    } else if text[0] == '|' {
        Some((Token::AltDelimiter, 1))
    } else {
        Some((Token::Itself(Node::Lit(seq![text[0]])), 1))
    }
}

/// What reading a pattern text gave.
pub struct Parsed {
    /// The nodes that were read.
    pub nodes: Seq<Node>,
    /// The part of the text that was not read.
    pub remaining: Seq<char>,
    /// The closing token or the delimiter that ended the reading, if one did.
    pub last: Option<Token>,
}

impl Parsed {
    /// The whole text was read, to its end.
    pub open spec fn is_complete(self) -> bool {
        self.remaining.len() == 0 && self.last is None
    }
}

/// Reads `text` up to its end, or up to the first token that closes or divides
/// a scope, or that cannot be read.
pub open spec fn parse(text: Seq<char>) -> Parsed {
    parse_items(text, Seq::empty())
}

/// Reads on behind the nodes `done`.
///
/// The tests on the length of what an inner scope left are always met (see
/// [`lemma_parse_items_progress`]); they are there to show that the reading ends.
pub open spec fn parse_items(text: Seq<char>, done: Seq<Node>) -> Parsed
    decreases text.len(), 1nat,
{
    let stuck = Parsed { nodes: done, remaining: text, last: None };
    match pick(text) {
        None => stuck,
        Some((token, used)) => {
            let rest = text.skip(used);
            match token {
                Token::Itself(node) => parse_items(rest, done.push(node)),
                Token::MoreThanZero => if done.len() > 0 {
                    parse_items(
                        rest,
                        done.drop_last().push(Node::MoreThanZero(Box::new(done.last()))),
                    )
                } else {
                    stuck
                },
                Token::MoreThanOne => if done.len() > 0 {
                    parse_items(
                        rest,
                        done.drop_last().push(Node::MoreThanOne(Box::new(done.last()))),
                    )
                } else {
                    stuck
                },
                Token::ZeroOrOne => if done.len() > 0 {
                    parse_items(
                        rest,
                        done.drop_last().push(Node::ZeroOrOne(Box::new(done.last()))),
                    )
                } else {
                    stuck
                },
                Token::PGroupOpen => {
                    let group = parse_items(rest, Seq::empty());
                    if group.last == Some(Token::GroupClose) && group.remaining.len()
                        < text.len() {
                        parse_items(group.remaining, done.push(Node::PGroup(group.nodes)))
                    } else {
                        stuck
                    }
                },
                Token::NGroupOpen => {
                    let group = parse_items(rest, Seq::empty());
                    if group.last == Some(Token::GroupClose) && group.remaining.len()
                        < text.len() {
                        parse_items(group.remaining, done.push(Node::NGroup(group.nodes)))
                    } else {
                        stuck
                    }
                },
                Token::AltOpen => match parse_branches(rest, Seq::empty()) {
                    Some((branches, remaining)) => if remaining.len() < text.len() {
                        parse_items(remaining, done.push(Node::Alternation(branches)))
                    } else {
                        stuck
                    },
                    None => stuck,
                },
                Token::GroupClose => Parsed {
                    nodes: done,
                    remaining: rest,
                    last: Some(Token::GroupClose),
                },
                Token::AltClose => Parsed {
                    nodes: done,
                    remaining: rest,
                    last: Some(Token::AltClose),
                },
                Token::AltDelimiter => Parsed {
                    nodes: done,
                    remaining: rest,
                    last: Some(Token::AltDelimiter),
                },
            }
        },
    }
}

/// Reads the branches of an alternation behind the branches `done`, up to the
/// token that closes the alternation, and returns all branches and what is left
/// of the text. `None` where the alternation is not closed.
pub open spec fn parse_branches(text: Seq<char>, done: Seq<Seq<Node>>) -> Option<
    (Seq<Seq<Node>>, Seq<char>),
>
    decreases text.len(), 2nat,
{
    let branch = parse_items(text, Seq::empty());
    match branch.last {
        Some(Token::AltDelimiter) => if branch.remaining.len() < text.len() {
            parse_branches(branch.remaining, done.push(branch.nodes))
        } else {
            None
        },
        Some(Token::AltClose) => Some((done.push(branch.nodes), branch.remaining)),
        _ => None,
    }
}

/// Reading never leaves more than it was given, and leaves less where it ended
/// at a closing token or a delimiter. What it leaves is the end of the text.
pub proof fn lemma_parse_items_progress(text: Seq<char>, done: Seq<Node>)
    ensures
        ({
            let p = parse_items(text, done);
            &&& p.remaining.len() <= text.len()
            &&& p.last is Some ==> p.remaining.len() < text.len()
            &&& p.remaining == text.skip(text.len() - p.remaining.len())
        }),
    decreases text.len(), 1nat,
{
    match pick(text) {
        None => {},
        Some((token, used)) => {
            let rest = text.skip(used);
            match token {
                Token::Itself(node) => {
                    lemma_parse_items_progress(rest, done.push(node));
                },
                Token::MoreThanZero => if done.len() > 0 {
                    lemma_parse_items_progress(
                        rest,
                        done.drop_last().push(Node::MoreThanZero(Box::new(done.last()))),
                    );
                },
                Token::MoreThanOne => if done.len() > 0 {
                    lemma_parse_items_progress(
                        rest,
                        done.drop_last().push(Node::MoreThanOne(Box::new(done.last()))),
                    );
                },
                Token::ZeroOrOne => if done.len() > 0 {
                    lemma_parse_items_progress(
                        rest,
                        done.drop_last().push(Node::ZeroOrOne(Box::new(done.last()))),
                    );
                },
                Token::PGroupOpen => {
                    let group = parse_items(rest, Seq::empty());
                    lemma_parse_items_progress(rest, Seq::empty());
                    if group.last == Some(Token::GroupClose) {
                        lemma_parse_items_progress(
                            group.remaining,
                            done.push(Node::PGroup(group.nodes)),
                        );
                        lemma_end_of_end(text, rest, group.remaining);
                    }
                },
                Token::NGroupOpen => {
                    let group = parse_items(rest, Seq::empty());
                    lemma_parse_items_progress(rest, Seq::empty());
                    if group.last == Some(Token::GroupClose) {
                        lemma_parse_items_progress(
                            group.remaining,
                            done.push(Node::NGroup(group.nodes)),
                        );
                        lemma_end_of_end(text, rest, group.remaining);
                    }
                },
                Token::AltOpen => {
                    lemma_parse_branches_progress(rest, Seq::empty());
                    if let Some((branches, remaining)) = parse_branches(rest, Seq::empty()) {
                        lemma_parse_items_progress(
                            remaining,
                            done.push(Node::Alternation(branches)),
                        );
                        lemma_end_of_end(text, rest, remaining);
                    }
                },
                _ => {},
            }
        },
    }
}

/// The end of the end of a text is an end of the text.
proof fn lemma_end_of_end(text: Seq<char>, middle: Seq<char>, end: Seq<char>)
    requires
        middle.len() <= text.len(),
        middle == text.skip(text.len() - middle.len()),
        end.len() <= middle.len(),
        end == middle.skip(middle.len() - end.len()),
    ensures
        end == text.skip(text.len() - end.len()),
{
}

/// An alternation that is closed leaves less than it was given, and what it
/// leaves is the end of the text.
pub proof fn lemma_parse_branches_progress(text: Seq<char>, done: Seq<Seq<Node>>)
    ensures
        parse_branches(text, done) matches Some((_, remaining)) ==> remaining.len() < text.len()
            && remaining == text.skip(text.len() - remaining.len()),
    decreases text.len(), 2nat,
{
    let branch = parse_items(text, Seq::empty());
    lemma_parse_items_progress(text, Seq::empty());
    if branch.last == Some(Token::AltDelimiter) {
        lemma_parse_branches_progress(branch.remaining, done.push(branch.nodes));
    }
}

} // verus!
