//! Patterns as they are held in memory, their matcher and their parser.
use crate::re::letter::Letters;
use crate::re::node::{
    first_branch, first_member, greedy_run, is_digit, is_letter, is_word, lemma_greedy_run_bound,
    lemma_match_len_bound, lemma_settle, sequence_from, sequence_len, Node,
};
use crate::re::syntax::{
    lemma_parse_items_progress, parse, parse_branches, parse_items, pick, Parsed, Token,
};
use crate::re::text::{
    byte_len, byte_len_of, fits, lemma_byte_len_single, lemma_byte_len_step,
    lemma_graphemes_before, prefix_to, reports, same_text, suffix_from,
};
use vstd::prelude::*;
use vstd::string::StrSliceExecFns;

verus! {

/// One node of a pattern. What each kind of node matches is said by the node
/// that it stands for: see [`Node`].
#[derive(Debug, PartialEq)]
pub enum Pattern<'a> {
    /// A grapheme, held as a slice of the pattern text.
    Lit(&'a str),
    /// `\w`
    AlphaNumeric,
    /// `\d`
    Digit,
    /// `.`
    Wildcard,
    /// `[...]`
    PGroup(Vec<Pattern<'a>>),
    /// `[^...]`
    NGroup(Vec<Pattern<'a>>),
    /// `*` behind the pattern that it holds.
    MoreThanZero(Box<Pattern<'a>>),
    /// `+` behind the pattern that it holds.
    MoreThanOne(Box<Pattern<'a>>),
    /// `?` behind the pattern that it holds.
    ZeroOrOne(Box<Pattern<'a>>),
    /// `(...|...)`, with one sequence of patterns for each branch.
    Alternation(Vec<Vec<Pattern<'a>>>),
}

/// The nodes that a sequence of patterns stands for.
pub open spec fn nodes_of(patterns: Seq<Pattern>) -> Seq<Node>
    decreases patterns,
{
    Seq::new(
        patterns.len(),
        |i: int|
            if 0 <= i < patterns.len() {
                patterns[i].view()
            } else {
                arbitrary()
            },
    )
}

/// The sequences of nodes that the branches of an alternation stand for.
pub open spec fn branches_of(branches: Seq<Vec<Pattern>>) -> Seq<Seq<Node>>
    decreases branches,
{
    Seq::new(
        branches.len(),
        |i: int|
            if 0 <= i < branches.len() {
                nodes_of(branches[i]@)
            } else {
                arbitrary()
            },
    )
}

impl<'a> Pattern<'a> {
    /// The node that the pattern stands for.
    pub open spec fn view(&self) -> Node
        decreases self,
    {
        match self {
            Pattern::Lit(g) => Node::Lit(g@),
            Pattern::AlphaNumeric => Node::AlphaNumeric,
            Pattern::Digit => Node::Digit,
            Pattern::Wildcard => Node::Wildcard,
            Pattern::PGroup(members) => Node::PGroup(nodes_of(members@)),
            Pattern::NGroup(members) => Node::NGroup(nodes_of(members@)),
            Pattern::MoreThanZero(inner) => Node::MoreThanZero(Box::new(inner.view())),
            Pattern::MoreThanOne(inner) => Node::MoreThanOne(Box::new(inner.view())),
            Pattern::ZeroOrOne(inner) => Node::ZeroOrOne(Box::new(inner.view())),
            Pattern::Alternation(branches) => Node::Alternation(branches_of(branches@)),
        }
    }
}

impl<'a> Pattern<'a> {
    /// Finds the first place in `s` at which the pattern matches, and returns
    /// its byte offset.
    pub fn search_match_pos(&self, s: &str) -> (r: Option<usize>)
        ensures
            reports(r, self@.find(s@), s@),
        decreases self, 1nat,
    {
        let len = byte_len_of(s);
        if len == usize::MAX {
            return None;
        }
        let mut pos: usize = 0;
        let mut letters = Letters::new(s);
        loop
            invariant
                byte_len(s@) == len < usize::MAX,
                pos + byte_len(letters.remaining()) == len,
                match self@.find(letters.remaining()) {
                    Some(p) => self@.find(s@) == Some((pos + p) as nat),
                    None => self@.find(s@) is None,
                },
            decreases letters.remaining().len(),
        {
            let ghost rest = letters.remaining();
            if self.match_size(letters.tail()).is_some() {
                return Some(pos);
            }
            let l = match letters.next() {
                Some(l) => l,
                None => {
                    return None;
                },
            };
            proof {
                lemma_byte_len_single(rest[0]);
                if rest.len() > 1 {
                    lemma_byte_len_step(rest.drop_first());
                }
            }
            pos += byte_len_of(l);
            if pos >= len {
                return None;
            }
        }
    }

    /// Whether the pattern is a quantifier, which a sequence matches together
    /// with the pattern behind it.
    pub fn evaluate_with_next(&self) -> (r: bool)
        ensures
            r == self@.is_quantifier(),
    {
        matches!(self, Self::MoreThanOne(_) | Self::MoreThanZero(_) | Self::ZeroOrOne(_))
    }

    /// Matches the pattern at the start of `s` and returns the number of bytes
    /// that it takes there.
    pub fn match_size(&self, s: &str) -> (r: Option<usize>)
        ensures
            reports(r, self@.match_len(s@), s@),
        decreases self, 0nat,
    {
        if byte_len_of(s) == usize::MAX {
            return None;
        }
        let mut letters = Letters::new(s);
        proof {
            if s@.len() > 0 {
                lemma_byte_len_single(s@[0]);
            }
        }
        match self {
            Self::Lit(lit) => match letters.next() {
                Some(l) => if same_text(l, lit) {
                    Some(byte_len_of(l))
                } else {
                    None
                },
                None => None,
            },
            Self::AlphaNumeric => match letters.next() {
                Some(l) => if is_ascii_alphanumeric(l) {
                    Some(byte_len_of(l))
                } else {
                    None
                },
                None => None,
            },
            Self::Digit => match letters.next() {
                Some(l) => if is_ascii_digit(l) {
                    Some(byte_len_of(l))
                } else {
                    None
                },
                None => None,
            },
            Self::Wildcard => match letters.next() {
                Some(l) => Some(byte_len_of(l)),
                None => None,
            },
            Self::PGroup(pats) => first_member_size(pats, s),
            Self::NGroup(pats) => if first_member_size(pats, s).is_none() {
                Some(1)
            } else {
                None
            },
            Self::MoreThanZero(pat) => Some(run_size(pat, s)),
            Self::MoreThanOne(pat) => match pat.match_size(s) {
                Some(size) => match suffix_from(s, size) {
                    Some(rest) => {
                        proof {
                            lemma_graphemes_before(s@, size as int);
                            lemma_greedy_run_bound(pat@, rest@);
                        }
                        Some(size + run_size(pat, rest))
                    },
                    None => Some(size),
                },
                None => None,
            },
            Self::ZeroOrOne(pat) => match pat.match_size(s) {
                Some(size) => Some(size),
                None => Some(0),
            },
            Self::Alternation(pats) => first_branch_size(pats, s),
        }
    }
}

/// What the first of `pats` that matches at the start of `s` takes.
fn first_member_size(pats: &Vec<Pattern>, s: &str) -> (r: Option<usize>)
    requires
        fits(s@),
    ensures
        match first_member(nodes_of(pats@), 0, s@) {
            Some(k) => r matches Some(x) && x == k,
            None => r is None,
        },
    decreases pats@, 1nat,
{
    let mut i: usize = 0;
    while i < pats.len()
        invariant
            i <= pats.len(),
            fits(s@),
            first_member(nodes_of(pats@), i as int, s@) == first_member(nodes_of(pats@), 0, s@),
        decreases pats.len() - i,
    {
        let found = pats[i].match_size(s);
        if found.is_some() {
            return found;
        }
        i += 1;
    }
    None
}

/// What the first of `branches` that matches at the start of `s` takes.
fn first_branch_size(branches: &Vec<Vec<Pattern>>, s: &str) -> (r: Option<usize>)
    requires
        fits(s@),
    ensures
        match first_branch(branches_of(branches@), 0, s@) {
            Some(k) => r matches Some(x) && x == k,
            None => r is None,
        },
    decreases branches@, 1nat,
{
    let mut i: usize = 0;
    while i < branches.len()
        invariant
            i <= branches.len(),
            fits(s@),
            first_branch(branches_of(branches@), i as int, s@) == first_branch(
                branches_of(branches@),
                0,
                s@,
            ),
        decreases branches.len() - i,
    {
        let found = search_match_size(branches[i].as_slice(), s);
        if found.is_some() {
            return found;
        }
        i += 1;
    }
    None
}

/// What `pat` takes when it is matched at the start of `s` again and again.
fn run_size(pat: &Pattern, s: &str) -> (r: usize)
    requires
        fits(s@),
    ensures
        r == greedy_run(pat@, s@),
    decreases pat, 1nat,
{
    let mut acc: usize = 0;
    let mut rest = s;
    loop
        invariant
            acc + byte_len(rest@) == byte_len(s@) < usize::MAX,
            acc + greedy_run(pat@, rest@) == greedy_run(pat@, s@),
        decreases rest@.len(),
    {
        proof {
            lemma_match_len_bound(pat@, rest@);
        }
        let size = match pat.match_size(rest) {
            Some(size) => size,
            None => {
                return acc;
            },
        };
        if size == 0 {
            return acc;
        }
        proof {
            lemma_graphemes_before(rest@, size as int);
        }
        acc += size;
        rest = match suffix_from(rest, size) {
            Some(rest) => rest,
            None => {
                return acc;
            },
        };
    }
}

/// Matches the sequence `patterns` at the start of `s` and returns the number
/// of bytes that it takes there.
pub fn search_match_size(patterns: &[Pattern], s: &str) -> (r: Option<usize>)
    ensures
        reports(r, sequence_len(nodes_of(patterns@), s@), s@),
    decreases patterns@, 1nat,
{
    if byte_len_of(s) == usize::MAX {
        return None;
    }
    let ghost nodes = nodes_of(patterns@);
    let mut cur_pos: usize = 0;
    let mut rest: Option<&str> = Some(s);
    let mut prev_pat: Option<&Pattern> = None;
    let ghost mut pending: Option<int> = None;
    let mut i: usize = 0;
    while i < patterns.len()
        invariant
            i <= patterns.len(),
            nodes == nodes_of(patterns@),
            fits(s@),
            match rest {
                Some(u) => cur_pos + byte_len(u@) == byte_len(s@),
                None => cur_pos <= byte_len(s@) + 1,
            },
            match prev_pat {
                Some(prev) => pending matches Some(q) && 0 <= q < i && *prev == patterns@[q],
                None => pending is None,
            },
            match sequence_from(
                nodes,
                i as int,
                match rest {
                    Some(u) => Some(u@),
                    None => None,
                },
                pending,
            ) {
                Some(k) => sequence_len(nodes, s@) == Some((cur_pos + k) as nat),
                None => sequence_len(nodes, s@) is None,
            },
        decreases patterns.len() - i,
    {
        let pat = &patterns[i];
        let mut text = match rest {
            Some(text) => text,
            None => {
                return None;
            },
        };
        if pat.evaluate_with_next() {
            prev_pat = Some(pat);
            proof {
                pending = Some(i as int);
            }
            i += 1;
            continue ;
        }
        proof {
            lemma_settle(nodes, i as int, text@, pending);
        }
        if let Some(prev) = prev_pat {
            let found = match pat.search_match_pos(text) {
                Some(found) => found,
                None => {
                    return None;
                },
            };
            proof {
                lemma_graphemes_before(text@, found as int);
            }
            let front = match prefix_to(text, found) {
                Some(front) => front,
                None => {
                    return None;
                },
            };
            let size = match prev.match_size(front) {
                Some(size) => size,
                None => {
                    return None;
                },
            };
            text = match suffix_from(text, size) {
                Some(text) => text,
                None => {
                    return None;
                },
            };
            cur_pos += size;
            prev_pat = None;
            proof {
                pending = None;
            }
        }
        proof {
            lemma_match_len_bound(pat@, text@);
        }
        let size = match pat.match_size(text) {
            Some(size) => size,
            None => {
                return None;
            },
        };
        proof {
            lemma_graphemes_before(text@, size as int);
        }
        cur_pos += size;
        rest = suffix_from(text, size);
        i += 1;
    }
    if let Some(pat) = prev_pat {
        let text = match rest {
            Some(text) => text,
            None => {
                return None;
            },
        };
        proof {
            lemma_match_len_bound(pat@, text@);
        }
        let size = match pat.match_size(text) {
            Some(size) => size,
            None => {
                return None;
            },
        };
        cur_pos += size;
    }
    Some(cur_pos)
}

/// Whether `s` is one ASCII letter, one ASCII digit or the underscore.
fn is_ascii_alphanumeric(s: &str) -> (r: bool)
    ensures
        r == (s@.len() == 1 && is_word(s@[0])),
{
    proof {
        reveal_strlit("_");
        if s@.len() == 1 && s@[0] == '_' {
            assert(s@ =~= "_"@);
        }
    }
    is_ascii_alphabet(s) || is_ascii_digit(s) || same_text(s, "_")
}

/// Whether `s` is one ASCII letter.
fn is_ascii_alphabet(s: &str) -> (r: bool)
    ensures
        r == (s@.len() == 1 && is_letter(s@[0])),
{
    if s.unicode_len() != 1 {
        return false;
    }
    let c = s.get_char(0);
    ('a' <= c && c <= 'z') || ('A' <= c && c <= 'Z')
}

/// Whether `s` is one ASCII digit.
fn is_ascii_digit(s: &str) -> (r: bool)
    ensures
        r == (s@.len() == 1 && is_digit(s@[0])),
{
    if s.unicode_len() != 1 {
        return false;
    }
    let c = s.get_char(0);
    '0' <= c && c <= '9'
}

/// One token of a pattern text: see [`Token`].
#[derive(Debug)]
pub enum PatternChar<'a> {
    /// A pattern that is complete in itself.
    Itself(Pattern<'a>),
    /// `*`
    MoreThanZero,
    /// `+`
    MoreThanOne,
    /// `?`
    ZeroOrOne,
    /// `[`
    PGroupOpen,
    /// `[^`
    NGroupOpen,
    /// `]`
    GroupClose,
    /// `(`
    AltOpen,
    /// `)`
    AltClose,
    /// `|`
    AltDelimiter,
}

impl<'a> View for PatternChar<'a> {
    type V = Token;

    open spec fn view(&self) -> Token {
        match self {
            PatternChar::Itself(pattern) => Token::Itself(pattern@),
            PatternChar::MoreThanZero => Token::MoreThanZero,
            PatternChar::MoreThanOne => Token::MoreThanOne,
            PatternChar::ZeroOrOne => Token::ZeroOrOne,
            PatternChar::PGroupOpen => Token::PGroupOpen,
            PatternChar::NGroupOpen => Token::NGroupOpen,
            PatternChar::GroupClose => Token::GroupClose,
            PatternChar::AltOpen => Token::AltOpen,
            PatternChar::AltClose => Token::AltClose,
            PatternChar::AltDelimiter => Token::AltDelimiter,
        }
    }
}

/// Whether `s` begins with the grapheme `c`.
fn starts_with_char(s: &str, c: char) -> (r: bool)
    ensures
        r == (s@.len() > 0 && s@[0] == c),
{
    !s.is_empty() && s.get_char(0) == c
}

impl<'a> PatternChar<'a> {
    /// Reads the token at the start of `expr`, and returns it with the text
    /// behind it.
    pub fn pick(expr: &'a str) -> (r: Option<(Self, &'a str)>)
        ensures
            match pick(expr@) {
                Some((token, used)) => r matches Some((chr, rest)) && chr@ == token && rest@
                    == expr@.skip(used),
                None => r is None,
            },
    {
        let mut letters = Letters::new(expr);
        let first = match letters.next() {
            Some(first) => first,
            None => {
                return None;
            },
        };
        match first.get_char(0) {
            '\\' => {
                let second = match letters.next() {
                    Some(second) => second,
                    None => {
                        return None;
                    },
                };
                match second.get_char(0) {
                    'w' => Some((PatternChar::Itself(Pattern::AlphaNumeric), letters.tail())),
                    'd' => Some((PatternChar::Itself(Pattern::Digit), letters.tail())),
                    _ => Some((PatternChar::Itself(Pattern::Lit(second)), letters.tail())),
                }
            },
            '.' => Some((PatternChar::Itself(Pattern::Wildcard), letters.tail())),
            '[' => {
                if starts_with_char(letters.tail(), '^') {
                    letters.next();
                    Some((PatternChar::NGroupOpen, letters.tail()))
                } else {
                    Some((PatternChar::PGroupOpen, letters.tail()))
                }
            },
            ']' => Some((PatternChar::GroupClose, letters.tail())),
            '+' => Some((PatternChar::MoreThanOne, letters.tail())),
            '*' => Some((PatternChar::MoreThanZero, letters.tail())),
            '?' => Some((PatternChar::ZeroOrOne, letters.tail())),
            '(' => Some((PatternChar::AltOpen, letters.tail())),
            ')' => Some((PatternChar::AltClose, letters.tail())),
            '|' => Some((PatternChar::AltDelimiter, letters.tail())),
            _ => Some((PatternChar::Itself(Pattern::Lit(first)), letters.tail())),
        }
    }
}

/// What [`parse_pattern`] read: the patterns, the text that it did not read, and
/// the closing token or delimiter at which it stopped, if it stopped at one.
#[derive(Debug)]
pub struct ParsedPatterns<'a> {
    pub inner: Vec<Pattern<'a>>,
    pub remaining: &'a str,
    pub last_char: Option<PatternChar<'a>>,
}

impl<'a> View for ParsedPatterns<'a> {
    type V = Parsed;

    open spec fn view(&self) -> Parsed {
        Parsed {
            nodes: nodes_of(self.inner@),
            remaining: self.remaining@,
            last: match self.last_char {
                Some(chr) => Some(chr@),
                None => None,
            },
        }
    }
}

impl<'a> ParsedPatterns<'a> {
    /// The patterns that were read.
    pub fn patterns(self) -> (r: Vec<Pattern<'a>>)
        ensures
            r == self.inner,
    {
        self.inner
    }

    /// Whether the whole text was read, to its end.
    pub fn completed(&self) -> (r: bool)
        ensures
            r == self@.is_complete(),
    {
        self.remaining.is_empty() && self.last_char.is_none()
    }
}

/// Reads the pattern text `expr` up to its end, or up to the first token that
/// closes or divides a scope, or that cannot be read.
pub fn parse_pattern<'a>(expr: &'a str) -> (r: ParsedPatterns<'a>)
    ensures
        r@ == parse(expr@),
    decreases expr@.len(),
{
    let mut rest_expr = expr;
    let mut patterns: Vec<Pattern<'a>> = Vec::new();
    assert(nodes_of(patterns@) =~= Seq::<Node>::empty());
    loop
        invariant
            rest_expr@.len() <= expr@.len(),
            parse_items(rest_expr@, nodes_of(patterns@)) == parse(expr@),
        decreases rest_expr@.len(),
    {
        let ghost done = nodes_of(patterns@);
        let ghost text = rest_expr@;
        let (chr, mut rest) = match PatternChar::pick(rest_expr) {
            Some(picked) => picked,
            None => {
                return ParsedPatterns { inner: patterns, remaining: rest_expr, last_char: None };
            },
        };
        match chr {
            PatternChar::Itself(p) => {
                patterns.push(p);
                assert(nodes_of(patterns@) =~= done.push(p@));
            },
            PatternChar::MoreThanZero => {
                match patterns.pop() {
                    Some(p) => {
                        patterns.push(Pattern::MoreThanZero(Box::new(p)));
                        assert(nodes_of(patterns@) =~= done.drop_last().push(
                            Node::MoreThanZero(Box::new(done.last())),
                        ));
                    },
                    None => {
                        return ParsedPatterns {
                            inner: patterns,
                            remaining: rest_expr,
                            last_char: None,
                        };
                    },
                }
            },
            PatternChar::MoreThanOne => {
                match patterns.pop() {
                    Some(p) => {
                        patterns.push(Pattern::MoreThanOne(Box::new(p)));
                        assert(nodes_of(patterns@) =~= done.drop_last().push(
                            Node::MoreThanOne(Box::new(done.last())),
                        ));
                    },
                    None => {
                        return ParsedPatterns {
                            inner: patterns,
                            remaining: rest_expr,
                            last_char: None,
                        };
                    },
                }
            },
            PatternChar::ZeroOrOne => {
                match patterns.pop() {
                    Some(p) => {
                        patterns.push(Pattern::ZeroOrOne(Box::new(p)));
                        assert(nodes_of(patterns@) =~= done.drop_last().push(
                            Node::ZeroOrOne(Box::new(done.last())),
                        ));
                    },
                    None => {
                        return ParsedPatterns {
                            inner: patterns,
                            remaining: rest_expr,
                            last_char: None,
                        };
                    },
                }
            },
            PatternChar::PGroupOpen => {
                let parsed = parse_pattern(rest);
                proof {
                    lemma_parse_items_progress(rest@, Seq::empty());
                }
                if !matches!(parsed.last_char, Some(PatternChar::GroupClose)) {
                    return ParsedPatterns {
                        inner: patterns,
                        remaining: rest_expr,
                        last_char: None,
                    };
                }
                rest = parsed.remaining;
                patterns.push(Pattern::PGroup(parsed.inner));
                assert(nodes_of(patterns@) =~= done.push(Node::PGroup(parsed@.nodes)));
            },
            PatternChar::NGroupOpen => {
                let parsed = parse_pattern(rest);
                proof {
                    lemma_parse_items_progress(rest@, Seq::empty());
                }
                if !matches!(parsed.last_char, Some(PatternChar::GroupClose)) {
                    return ParsedPatterns {
                        inner: patterns,
                        remaining: rest_expr,
                        last_char: None,
                    };
                }
                rest = parsed.remaining;
                patterns.push(Pattern::NGroup(parsed.inner));
                assert(nodes_of(patterns@) =~= done.push(Node::NGroup(parsed@.nodes)));
            },
            PatternChar::GroupClose => {
                return ParsedPatterns {
                    inner: patterns,
                    remaining: rest,
                    last_char: Some(PatternChar::GroupClose),
                };
            },
            PatternChar::AltOpen => {
                let mut inners: Vec<Vec<Pattern<'a>>> = Vec::new();
                assert(branches_of(inners@) =~= Seq::<Seq<Node>>::empty());
                let mut parsed = parse_pattern(rest);
                let ghost mut branch_text = rest@;
                proof {
                    lemma_parse_items_progress(rest@, Seq::empty());
                }
                while matches!(parsed.last_char, Some(PatternChar::AltDelimiter))
                    invariant
                        branch_text.len() < text.len(),
                        parsed@ == parse_items(branch_text, Seq::empty()),
                        parsed@.remaining.len() <= branch_text.len(),
                        parsed@.last is Some ==> parsed@.remaining.len() < branch_text.len(),
                        parse_branches(branch_text, branches_of(inners@)) == parse_branches(
                            rest@,
                            Seq::empty(),
                        ),
                        text == rest_expr@,
                        rest_expr@.len() <= expr@.len(),
                    decreases branch_text.len(),
                {
                    let ghost before = branches_of(inners@);
                    let ParsedPatterns { inner, remaining, .. } = parsed;
                    inners.push(inner);
                    assert(branches_of(inners@) =~= before.push(nodes_of(inner@)));
                    proof {
                        branch_text = remaining@;
                    }
                    parsed = parse_pattern(remaining);
                    proof {
                        lemma_parse_items_progress(remaining@, Seq::empty());
                    }
                }
                if !matches!(parsed.last_char, Some(PatternChar::AltClose)) {
                    return ParsedPatterns {
                        inner: patterns,
                        remaining: rest_expr,
                        last_char: None,
                    };
                }
                let ghost before = branches_of(inners@);
                let ParsedPatterns { inner, remaining, .. } = parsed;
                inners.push(inner);
                assert(branches_of(inners@) =~= before.push(nodes_of(inner@)));
                rest = remaining;
                patterns.push(Pattern::Alternation(inners));
                assert(nodes_of(patterns@) =~= done.push(Node::Alternation(branches_of(inners@))));
            },
            PatternChar::AltClose => {
                return ParsedPatterns {
                    inner: patterns,
                    remaining: rest,
                    last_char: Some(PatternChar::AltClose),
                };
            },
            PatternChar::AltDelimiter => {
                return ParsedPatterns {
                    inner: patterns,
                    remaining: rest,
                    last_char: Some(PatternChar::AltDelimiter),
                };
            },
        }
        rest_expr = rest;
    }
}

} // verus!
