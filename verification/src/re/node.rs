//! The mathematical model of a pattern, and what it matches.
//!
//! A text is a sequence of graphemes (`Seq<char>`); what a match consumes is
//! counted in bytes of the text's encoding. The functions here say, for every
//! node and every text, whether the node matches and how many bytes it takes.
use crate::re::text::{
    byte_len, graphemes_before, lemma_graphemes_before, text_at, text_before, width,
};
use vstd::prelude::*;

verus! {

/// One node of a pattern.
pub enum Node {
    /// The grapheme that the node holds, and no other.
    Lit(Seq<char>),
    /// An ASCII letter, an ASCII digit or the underscore.
    AlphaNumeric,
    /// An ASCII digit.
    Digit,
    /// Any grapheme.
    Wildcard,
    /// What any of the members matches.
    PGroup(Seq<Node>),
    /// What none of the members matches.
    NGroup(Seq<Node>),
    /// The inner node, as often as it matches in a row.
    MoreThanZero(Box<Node>),
    /// The inner node, as often as it matches in a row, and once at least.
    MoreThanOne(Box<Node>),
    /// The inner node, or nothing.
    ZeroOrOne(Box<Node>),
    /// What any of the branches matches, each branch a sequence of nodes.
    Alternation(Seq<Seq<Node>>),
}

/// An ASCII digit.
pub open spec fn is_digit(c: char) -> bool {
    '0' <= c <= '9'
}

/// An ASCII letter.
pub open spec fn is_letter(c: char) -> bool {
    'a' <= c <= 'z' || 'A' <= c <= 'Z'
}

/// An ASCII letter, an ASCII digit or the underscore.
pub open spec fn is_word(c: char) -> bool {
    is_letter(c) || is_digit(c) || c == '_'
}

impl Node {
    /// A quantifier is not matched where it stands in a sequence: how much it
    /// takes is settled by the node behind it.
    pub open spec fn is_quantifier(self) -> bool {
        self is MoreThanZero || self is MoreThanOne || self is ZeroOrOne
    }

    /// The number of bytes that the node takes at the start of `t`, or `None`
    /// where it does not match there.
    ///
    /// The nodes for one grapheme take that grapheme's width. A positive group
    /// takes what its first matching member takes. A negative group takes one
    /// byte where no member matches, whatever stands there, the end of the text
    /// included. A repetition takes its run; an option takes what the inner node
    /// takes, or nothing. An alternation takes what its first matching branch
    /// takes.
    pub open spec fn match_len(self, t: Seq<char>) -> Option<nat>
        decreases self, 0nat,
    {
        match self {
            Node::Lit(g) => if t.len() > 0 && g == seq![t[0]] {
                Some(width(t[0]))
            } else {
                None
            },
            Node::AlphaNumeric => if t.len() > 0 && is_word(t[0]) {
                Some(width(t[0]))
            } else {
                None
            },
            Node::Digit => if t.len() > 0 && is_digit(t[0]) {
                Some(width(t[0]))
            } else {
                None
            },
            Node::Wildcard => if t.len() > 0 {
                Some(width(t[0]))
            } else {
                None
            },
            Node::PGroup(members) => first_member(members, 0, t),
            Node::NGroup(members) => if first_member(members, 0, t) is None {
                Some(1nat)
            } else {
                None
            },
            Node::MoreThanZero(inner) => Some(greedy_run(*inner, t)),
            Node::MoreThanOne(inner) => match inner.match_len(t) {
                Some(k) => match text_at(t, k as int) {
                    Some(u) => Some(k + greedy_run(*inner, u)),
                    None => Some(k),
                },
                None => None,
            },
            Node::ZeroOrOne(inner) => match inner.match_len(t) {
                Some(k) => Some(k),
                None => Some(0nat),
            },
            Node::Alternation(branches) => first_branch(branches, 0, t),
        }
    }

    /// The byte offset of the first place in `t` at which the node matches. The
    /// places tried are the start of each grapheme of `t` and, where `t` is empty,
    /// its start; the end of a text that is not empty is not tried.
    pub open spec fn find(self, t: Seq<char>) -> Option<nat>
        decreases self, t.len() + 1,
    {
        if self.match_len(t) is Some {
            Some(0nat)
        } else if t.len() <= 1 {
            None
        } else {
            match self.find(t.drop_first()) {
                Some(p) => Some(width(t[0]) + p),
                None => None,
            }
        }
    }
}

/// What the first of `members[i..]` that matches at the start of `t` takes.
pub open spec fn first_member(members: Seq<Node>, i: int, t: Seq<char>) -> Option<nat>
    decreases members, members.len() - i,
{
    if 0 <= i < members.len() {
        match members[i].match_len(t) {
            Some(k) => Some(k),
            None => first_member(members, i + 1, t),
        }
    } else {
        None
    }
}

/// What the first of `branches[i..]` that matches at the start of `t` takes.
pub open spec fn first_branch(branches: Seq<Seq<Node>>, i: int, t: Seq<char>) -> Option<nat>
    decreases branches, branches.len() - i,
{
    if 0 <= i < branches.len() {
        match sequence_len(branches[i], t) {
            Some(k) => Some(k),
            None => first_branch(branches, i + 1, t),
        }
    } else {
        None
    }
}

/// The number of bytes that `inner` takes when it is matched at the start of `t`
/// again and again. The run ends where `inner` does not match, where it matches
/// without taking anything, and where what it took does not end between two
/// graphemes of `t`.
pub open spec fn greedy_run(inner: Node, t: Seq<char>) -> nat
    decreases inner, t.len() + 1,
{
    match inner.match_len(t) {
        Some(k) => if k > 0 {
            match text_at(t, k as int) {
                Some(u) => {
                    proof {
                        lemma_graphemes_before(t, k as int);
                    }
                    k + greedy_run(inner, u)
                },
                None => k,
            }
        } else {
            0
        },
        None => 0,
    }
}

/// The number of bytes that the sequence `nodes` takes at the start of `t`, or
/// `None` where it does not match there.
pub open spec fn sequence_len(nodes: Seq<Node>, t: Seq<char>) -> Option<nat>
    decreases nodes, nodes.len() + 1,
{
    sequence_from(nodes, 0, Some(t), None)
}

/// The number of bytes that `nodes[i..]` take, given the text `at` that is left
/// (`None` where the bytes taken so far do not end between two graphemes of the
/// text) and the place `pending` in `nodes` of a quantifier that waits for the
/// node behind it.
///
/// A quantifier is put aside, in place of one that was waiting. The node behind
/// it is found in the text first; the quantifier is then matched against what
/// lies in front of the place found, and the node where the quantifier ended. A
/// quantifier at the end of the sequence is matched against what is left.
pub open spec fn sequence_from(
    nodes: Seq<Node>,
    i: int,
    at: Option<Seq<char>>,
    pending: Option<int>,
) -> Option<nat>
    decreases nodes, nodes.len() - i,
{
    if i < 0 || i > nodes.len() {
        None
    } else if at is None {
        if i == nodes.len() && pending is None {
            Some(0nat)
        } else {
            None
        }
    } else if i == nodes.len() {
        match pending {
            Some(q) => if 0 <= q < nodes.len() {
                nodes[q].match_len(at.unwrap())
            } else {
                None
            },
            None => Some(0nat),
        }
    } else if nodes[i].is_quantifier() {
        sequence_from(nodes, i + 1, at, Some(i))
    } else {
        match settle(nodes, i, at.unwrap(), pending) {
            Some((d, u)) => match nodes[i].match_len(u) {
                Some(k) => match sequence_from(nodes, i + 1, text_at(u, k as int), None) {
                    Some(r) => Some(d + k + r),
                    None => None,
                },
                None => None,
            },
            None => None,
        }
    }
}

/// What the waiting quantifier takes of `t`, given that `nodes[i]` stands behind
/// it, and the text that is left for `nodes[i]`. Without a waiting quantifier
/// nothing is taken.
pub open spec fn settle(nodes: Seq<Node>, i: int, t: Seq<char>, pending: Option<int>) -> Option<
    (nat, Seq<char>),
>
    decreases nodes, 0nat,
{
    match pending {
        Some(q) => if 0 <= q < nodes.len() && 0 <= i < nodes.len() {
            match nodes[i].find(t) {
                Some(b) => match text_before(t, b as int) {
                    Some(front) => match nodes[q].match_len(front) {
                        Some(d) => match text_at(t, d as int) {
                            Some(u) => Some((d, u)),
                            None => None,
                        },
                        None => None,
                    },
                    None => None,
                },
                None => None,
            }
        } else {
            None
        },
        None => Some((0nat, t)),
    }
}

/// What [`Node::find`] returns falls between two graphemes of the text.
pub proof fn lemma_find_bound(n: Node, t: Seq<char>)
    ensures
        n.find(t) matches Some(p) ==> graphemes_before(t, p as int) is Some && p <= byte_len(t),
    decreases t.len(),
{
    if n.match_len(t) is None && t.len() > 1 {
        lemma_find_bound(n, t.drop_first());
    }
}

/// No node takes more than the text and one byte.
pub proof fn lemma_match_len_bound(n: Node, t: Seq<char>)
    ensures
        n.match_len(t) matches Some(k) ==> k <= byte_len(t) + 1,
    decreases n, 0nat,
{
    match n {
        Node::PGroup(members) => lemma_first_member_bound(members, 0, t),
        Node::MoreThanZero(inner) => lemma_greedy_run_bound(*inner, t),
        Node::MoreThanOne(inner) => {
            lemma_match_len_bound(*inner, t);
            if let Some(k) = inner.match_len(t) {
                if let Some(u) = text_at(t, k as int) {
                    lemma_graphemes_before(t, k as int);
                    lemma_greedy_run_bound(*inner, u);
                }
            }
        },
        Node::ZeroOrOne(inner) => lemma_match_len_bound(*inner, t),
        Node::Alternation(branches) => lemma_first_branch_bound(branches, 0, t),
        _ => {},
    }
}

/// No member of a group takes more than the text and one byte.
pub proof fn lemma_first_member_bound(members: Seq<Node>, i: int, t: Seq<char>)
    ensures
        first_member(members, i, t) matches Some(k) ==> k <= byte_len(t) + 1,
    decreases members, members.len() - i,
{
    if 0 <= i < members.len() {
        lemma_match_len_bound(members[i], t);
        lemma_first_member_bound(members, i + 1, t);
    }
}

/// No branch of an alternation takes more than the text and one byte.
pub proof fn lemma_first_branch_bound(branches: Seq<Seq<Node>>, i: int, t: Seq<char>)
    ensures
        first_branch(branches, i, t) matches Some(k) ==> k <= byte_len(t) + 1,
    decreases branches, branches.len() - i,
{
    if 0 <= i < branches.len() {
        lemma_sequence_from_bound(branches[i], 0, Some(t), None);
        assert(sequence_len(branches[i], t) == sequence_from(branches[i], 0, Some(t), None));
        lemma_first_branch_bound(branches, i + 1, t);
    }
}

/// No run takes more than the text and one byte.
pub proof fn lemma_greedy_run_bound(inner: Node, t: Seq<char>)
    ensures
        greedy_run(inner, t) <= byte_len(t) + 1,
    decreases inner, t.len() + 1,
{
    lemma_match_len_bound(inner, t);
    if let Some(k) = inner.match_len(t) {
        if k > 0 {
            if let Some(u) = text_at(t, k as int) {
                lemma_graphemes_before(t, k as int);
                lemma_greedy_run_bound(inner, u);
            }
        }
    }
}

/// What a waiting quantifier takes ends between two graphemes, and what is left
/// is the text from there on.
pub proof fn lemma_settle(nodes: Seq<Node>, i: int, t: Seq<char>, pending: Option<int>)
    ensures
        settle(nodes, i, t, pending) matches Some((d, u)) ==> text_at(t, d as int) == Some(u)
            && d + byte_len(u) == byte_len(t),
{
    if let Some((d, u)) = settle(nodes, i, t, pending) {
        lemma_graphemes_before(t, d as int);
    }
}

/// No sequence takes more than the text and one byte, and none takes anything
/// where no text is left.
pub proof fn lemma_sequence_from_bound(
    nodes: Seq<Node>,
    i: int,
    at: Option<Seq<char>>,
    pending: Option<int>,
)
    ensures
        sequence_from(nodes, i, at, pending) matches Some(r) ==> match at {
            Some(t) => r <= byte_len(t) + 1,
            None => r == 0,
        },
    decreases nodes, nodes.len() - i,
{
    if i < 0 || i > nodes.len() || at is None {
    } else if i == nodes.len() {
        if let Some(q) = pending {
            if 0 <= q < nodes.len() {
                lemma_match_len_bound(nodes[q], at.unwrap());
            }
        }
    } else if nodes[i].is_quantifier() {
        lemma_sequence_from_bound(nodes, i + 1, at, Some(i));
    } else {
        let t = at.unwrap();
        lemma_settle(nodes, i, t, pending);
        if let Some((d, u)) = settle(nodes, i, t, pending) {
            lemma_match_len_bound(nodes[i], u);
            if let Some(k) = nodes[i].match_len(u) {
                lemma_graphemes_before(u, k as int);
                lemma_sequence_from_bound(nodes, i + 1, text_at(u, k as int), None);
            }
        }
    }
}

} // verus!
