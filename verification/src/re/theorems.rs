//! What holds of every pattern and every line.
//!
//! The theorems here are stated over the models that the contracts of
//! [`Regex::new`](crate::re::Regex::new) and
//! [`Regex::is_match`](crate::re::Regex::is_match) speak of: [`compile`] says which
//! regex a pattern text gives, and [`RegexModel::accepts`] which lines it matches.
use crate::re::node::{
    first_member, is_digit, sequence_from, sequence_len, settle, Node,
};
use crate::re::syntax::{
    lemma_parse_items_progress, parse_branches, parse_items, pick, Parsed, Token,
};
use crate::re::text::{
    byte_len, fits, lemma_byte_len_single, lemma_first_grapheme, lemma_graphemes_before, text_at,
    width,
};
use crate::re::{body, compile, RegexModel};
use vstd::prelude::*;

verus! {

/// A text takes at least one byte and at most four for each grapheme. So every
/// text of up to 2^30 - 1 graphemes fits, and the matcher reports of it what the
/// model says.
pub proof fn theorem_texts_fit(t: Seq<char>)
    ensures
        t.len() <= byte_len(t) <= 4 * t.len(),
        t.len() <= 0x3fff_ffff ==> fits(t),
    decreases t.len(),
{
    if t.len() > 0 {
        theorem_texts_fit(t.drop_first());
    }
}

/// The number of places of `t` at which a search tries a node: the start of each
/// grapheme, and the start of an empty text.
pub open spec fn places(t: Seq<char>) -> int {
    if t.len() == 0 {
        1
    } else {
        t.len() as int
    }
}

/// The first place of `t`, counted in graphemes, at which `n` matches.
pub open spec fn find_index(n: Node, t: Seq<char>) -> Option<int>
    decreases t.len(),
{
    if n.match_len(t) is Some {
        Some(0int)
    } else if t.len() <= 1 {
        None
    } else {
        match find_index(n, t.drop_first()) {
            Some(k) => Some(k + 1),
            None => None,
        }
    }
}

/// A search finds the first place at which the node matches, and returns the
/// number of bytes in front of it.
pub proof fn lemma_find_is_first(n: Node, t: Seq<char>)
    ensures
        match find_index(n, t) {
            Some(k) => {
                &&& 0 <= k < places(t)
                &&& n.find(t) == Some(byte_len(t.take(k)))
                &&& text_at(t, byte_len(t.take(k)) as int) == Some(t.skip(k))
                &&& n.match_len(t.skip(k)) is Some
                &&& forall|j: int| 0 <= j < k ==> (#[trigger] n.match_len(t.skip(j))) is None
            },
            None => {
                &&& n.find(t) is None
                &&& forall|j: int|
                    0 <= j < places(t) ==> (#[trigger] n.match_len(t.skip(j))) is None
            },
        },
    decreases t.len(),
{
    assert(t.skip(0) =~= t);
    if n.match_len(t) is None && t.len() > 1 {
        let rest = t.drop_first();
        lemma_find_is_first(n, rest);
        assert forall|j: int| 1 <= j <= rest.len() implies #[trigger] t.skip(j) == rest.skip(
            j - 1,
        ) by {}
        if let Some(k) = find_index(n, rest) {
            assert(t.take(k + 1).drop_first() =~= rest.take(k));
            lemma_graphemes_before(rest, byte_len(rest.take(k)) as int);
        }
    }
}

/// A pattern of one node that is no quantifier, without anchors, occurs in a
/// line exactly where the node matches at one of the places of the line.
pub proof fn theorem_single_node(n: Node, line: Seq<char>)
    requires
        !n.is_quantifier(),
    ensures
        (RegexModel { start_anchor: false, end_anchor: false, nodes: seq![n] }).accepts(line)
            <==> exists|k: int|
            0 <= k < places(line) && (#[trigger] n.match_len(line.skip(k))) is Some,
{
    lemma_find_is_first(n, line);
    if let Some(k) = find_index(n, line) {
        assert(sequence_len(seq![n], line.skip(k)) == n.match_len(line.skip(k)));
    }
}

/// The pattern `.` occurs in every line that is not empty, and in no other. At the
/// start of such a line the wildcard takes the whole first grapheme: as many
/// bytes as that grapheme has alone.
pub proof fn theorem_wildcard(line: Seq<char>)
    ensures
        compile("."@) matches Some(regex) && (regex.accepts(line) <==> line.len() > 0),
        line.len() > 0 ==> Node::Wildcard.match_len(line) == Some(byte_len(seq![line[0]])),
{
    reveal_strlit(".");
    reveal_with_fuel(parse_items, 3);
    if line.len() > 0 {
        lemma_byte_len_single(line[0]);
    }
}

/// The pattern `\d` occurs in the lines that hold an ASCII digit, and in no
/// other.
pub proof fn theorem_digit_class(line: Seq<char>)
    ensures
        compile("\\d"@) matches Some(regex) && (regex.accepts(line) <==> exists|i: int|
            0 <= i < line.len() && is_digit(#[trigger] line[i])),
{
    reveal_strlit("\\d");
    reveal_with_fuel(parse_items, 3);
    theorem_single_node(Node::Digit, line);
    assert forall|k: int| 0 <= k < places(line) implies ((#[trigger] Node::Digit.match_len(
        line.skip(k),
    )) is Some <==> k < line.len() && is_digit(line[k])) by {
    }
    if exists|i: int| 0 <= i < line.len() && is_digit(#[trigger] line[i]) {
        let i = choose|i: int| 0 <= i < line.len() && is_digit(#[trigger] line[i]);
        assert(Node::Digit.match_len(line.skip(i)) is Some);
    }
}

/// The members of the groups `[abc]` and `[^abc]`.
pub open spec fn abc() -> Seq<Node> {
    seq![Node::Lit(seq!['a']), Node::Lit(seq!['b']), Node::Lit(seq!['c'])]
}

/// One of `a`, `b`, `c`.
pub open spec fn is_abc(c: char) -> bool {
    c == 'a' || c == 'b' || c == 'c'
}

/// A member of `[abc]` matches at the start of the texts that begin with `a`, `b`
/// or `c`.
proof fn lemma_abc_member(t: Seq<char>)
    ensures
        first_member(abc(), 0, t) is Some <==> t.len() > 0 && is_abc(t[0]),
{
    reveal_with_fuel(first_member, 4);
    if t.len() > 0 {
        assert(seq![t[0]] == seq!['a'] <==> t[0] == 'a') by {
            if seq![t[0]] == seq!['a'] {
                assert(seq![t[0]][0] == seq!['a'][0]);
            }
        }
        assert(seq![t[0]] == seq!['b'] <==> t[0] == 'b') by {
            if seq![t[0]] == seq!['b'] {
                assert(seq![t[0]][0] == seq!['b'][0]);
            }
        }
        assert(seq![t[0]] == seq!['c'] <==> t[0] == 'c') by {
            if seq![t[0]] == seq!['c'] {
                assert(seq![t[0]][0] == seq!['c'][0]);
            }
        }
    }
}

/// What reading `abc]` gives: the three members, and the end of the group.
proof fn lemma_parse_abc(text: Seq<char>)
    requires
        text =~= seq!['a', 'b', 'c', ']'],
    ensures
        parse_items(text, Seq::empty()) == (Parsed {
            nodes: abc(),
            remaining: Seq::empty(),
            last: Some(Token::GroupClose),
        }),
{
    let t1 = text.skip(1);
    let t2 = t1.skip(1);
    let t3 = t2.skip(1);
    let t4 = t3.skip(1);
    assert(t4 =~= Seq::<char>::empty());
    let d0 = Seq::<Node>::empty();
    let d1 = d0.push(Node::Lit(seq![text[0]]));
    let d2 = d1.push(Node::Lit(seq![t1[0]]));
    let d3 = d2.push(Node::Lit(seq![t2[0]]));
    assert(d3 =~= abc());
    assert(parse_items(t3, d3) == (Parsed {
        nodes: d3,
        remaining: t4,
        last: Some(Token::GroupClose),
    }));
    assert(parse_items(t1, d1) == parse_items(t2, d2));
}

/// The pattern `[abc]` occurs in the lines that hold an `a`, a `b` or a `c`, and
/// in no other.
pub proof fn theorem_positive_group(line: Seq<char>)
    ensures
        compile("[abc]"@) matches Some(regex) && (regex.accepts(line) <==> exists|i: int|
            0 <= i < line.len() && is_abc(#[trigger] line[i])),
{
    reveal_strlit("[abc]");
    reveal_with_fuel(parse_items, 3);
    let text = "[abc]"@;
    let node = Node::PGroup(abc());
    lemma_parse_abc(text.skip(1));
    theorem_single_node(node, line);
    assert forall|k: int| 0 <= k < places(line) implies ((#[trigger] node.match_len(
        line.skip(k),
    )) is Some <==> k < line.len() && is_abc(line[k])) by {
        lemma_abc_member(line.skip(k));
    }
    if exists|i: int| 0 <= i < line.len() && is_abc(#[trigger] line[i]) {
        let i = choose|i: int| 0 <= i < line.len() && is_abc(#[trigger] line[i]);
        assert(node.match_len(line.skip(i)) is Some);
    }
}

/// The pattern `[^abc]` occurs in the lines that hold a grapheme other than `a`,
/// `b` and `c`, and, of the lines that hold none, in the empty line alone: at
/// the end of a text a negative group matches too.
pub proof fn theorem_negative_group(line: Seq<char>)
    ensures
        compile("[^abc]"@) matches Some(regex) && {
            &&& line.len() > 0 ==> (regex.accepts(line) <==> exists|i: int|
                0 <= i < line.len() && !is_abc(#[trigger] line[i]))
            &&& line.len() == 0 ==> regex.accepts(line)
        },
{
    reveal_strlit("[^abc]");
    reveal_with_fuel(parse_items, 3);
    let text = "[^abc]"@;
    let node = Node::NGroup(abc());
    lemma_parse_abc(text.skip(2));
    theorem_single_node(node, line);
    assert forall|k: int| 0 <= k < places(line) implies ((#[trigger] node.match_len(
        line.skip(k),
    )) is Some <==> line.len() == 0 || !is_abc(line[k])) by {
        lemma_abc_member(line.skip(k));
    }
    if line.len() == 0 {
        assert(node.match_len(line.skip(0)) is Some);
    } else if exists|i: int| 0 <= i < line.len() && !is_abc(#[trigger] line[i]) {
        let i = choose|i: int| 0 <= i < line.len() && !is_abc(#[trigger] line[i]);
        assert(node.match_len(line.skip(i)) is Some);
    }
}

/// A grapheme that stands for itself wherever it is written in a pattern.
pub open spec fn is_plain(c: char) -> bool {
    c != '\\' && c != '.' && c != '[' && c != ']' && c != '+' && c != '*' && c != '?' && c != '('
        && c != ')' && c != '|'
}

/// A pattern text of literal graphemes alone: each stands for itself, and none
/// is an anchor.
pub open spec fn is_literal_text(p: Seq<char>) -> bool {
    &&& forall|i: int| 0 <= i < p.len() ==> is_plain(#[trigger] p[i])
    &&& p.len() > 0 ==> p[0] != '^' && p.last() != '$'
}

/// The nodes of a pattern of literal graphemes.
pub open spec fn literals(p: Seq<char>) -> Seq<Node> {
    Seq::new(p.len(), |i: int| Node::Lit(seq![p[i]]))
}

/// Whether `p` stands in `line` from grapheme `i` on.
pub open spec fn occurs_at(line: Seq<char>, p: Seq<char>, i: int) -> bool {
    0 <= i && i + p.len() <= line.len() && line.subrange(i, i + p.len()) == p
}

/// Whether `p` stands somewhere in `line`.
pub open spec fn contains(line: Seq<char>, p: Seq<char>) -> bool {
    exists|i: int| occurs_at(line, p, i)
}

/// The first place of `line` that holds the grapheme `c`.
pub open spec fn first_index_of(line: Seq<char>, c: char) -> Option<int>
    decreases line.len(),
{
    if line.len() == 0 {
        None
    } else if line[0] == c {
        Some(0int)
    } else {
        match first_index_of(line.drop_first(), c) {
            Some(k) => Some(k + 1),
            None => None,
        }
    }
}

/// Whether `p` is not empty and stands in `line` at the first place that holds
/// the first grapheme of `p`.
pub open spec fn occurs_at_first(line: Seq<char>, p: Seq<char>) -> bool {
    p.len() > 0 && match first_index_of(line, p[0]) {
        Some(k) => occurs_at(line, p, k),
        None => false,
    }
}

/// A text of plain graphemes reads as one literal for each grapheme, to its end.
proof fn lemma_parse_literals(text: Seq<char>, done: Seq<Node>)
    requires
        forall|i: int| 0 <= i < text.len() ==> is_plain(#[trigger] text[i]),
    ensures
        parse_items(text, done) == (Parsed {
            nodes: done + literals(text),
            remaining: Seq::empty(),
            last: None,
        }),
    decreases text.len(),
{
    if text.len() == 0 {
        assert(text =~= Seq::<char>::empty());
    } else {
        let rest = text.skip(1);
        let node = Node::Lit(seq![text[0]]);
        assert forall|i: int| 0 <= i < rest.len() implies is_plain(#[trigger] rest[i]) by {}
        lemma_parse_literals(rest, done.push(node));
        assert(done.push(node) + literals(rest) =~= done + literals(text));
    }
}

/// The first place at which a literal matches is the first place that holds its
/// grapheme.
proof fn lemma_find_literal(c: char, t: Seq<char>)
    ensures
        find_index(Node::Lit(seq![c]), t) == first_index_of(t, c),
    decreases t.len(),
{
    if t.len() > 0 {
        if seq![c] == seq![t[0]] {
            assert(seq![c][0] == seq![t[0]][0]);
        }
        lemma_find_literal(c, t.drop_first());
    }
}

/// A text begins with `q` where it begins with the first grapheme of `q` and
/// goes on with the rest of `q`.
proof fn lemma_occurs_at_start(t: Seq<char>, q: Seq<char>)
    requires
        q.len() > 0,
    ensures
        occurs_at(t, q, 0) <==> t.len() > 0 && t[0] == q[0] && occurs_at(
            t.drop_first(),
            q.drop_first(),
            0,
        ),
{
    let n = q.len() as int;
    if occurs_at(t, q, 0) {
        assert forall|j: int| 0 <= j < n - 1 implies #[trigger] t.drop_first()[j] == q[j + 1] by {}
        assert(t.drop_first().subrange(0, n - 1) =~= q.drop_first());
    }
    if t.len() > 0 && t[0] == q[0] && occurs_at(t.drop_first(), q.drop_first(), 0) {
        assert forall|j: int| 0 <= j < n implies #[trigger] t[j] == q[j] by {
            if j > 0 {
                assert(t.drop_first().subrange(0, n - 1)[j - 1] == q.drop_first()[j - 1]);
            }
        }
        assert(t.subrange(0, n) =~= q);
    }
}

/// A sequence of literals matches at the start of the texts that begin with
/// their graphemes, and takes the bytes of these.
proof fn lemma_sequence_literals(p: Seq<char>, i: int, t: Seq<char>)
    requires
        0 <= i <= p.len(),
    ensures
        sequence_from(literals(p), i, Some(t), None) == (if occurs_at(t, p.skip(i), 0) {
            Some(byte_len(p.skip(i)))
        } else {
            None
        }),
    decreases p.len() - i,
{
    let nodes = literals(p);
    let q = p.skip(i);
    if i == p.len() {
        assert(t.subrange(0, 0) =~= q);
    } else {
        let c = p[i];
        assert(q.drop_first() =~= p.skip(i + 1));
        assert(settle(nodes, i, t, None) == Some((0nat, t)));
        lemma_occurs_at_start(t, q);
        if t.len() > 0 {
            if seq![c] == seq![t[0]] {
                assert(seq![c][0] == seq![t[0]][0]);
            }
            if t[0] == c {
                lemma_first_grapheme(t, width(c) as int);
                lemma_sequence_literals(p, i + 1, t.drop_first());
            }
        }
    }
}

/// A pattern of literal graphemes alone occurs in a line exactly where it stands
/// at the first place of the line that holds its first grapheme. One attempt is
/// made, and a later place is not tried: the pattern `ab` does not occur in
/// `aab`.
pub proof fn theorem_literal_pattern(p: Seq<char>, line: Seq<char>)
    requires
        is_literal_text(p),
    ensures
        compile(p) matches Some(regex) && regex.accepts(line) == occurs_at_first(line, p),
        occurs_at_first(line, p) ==> contains(line, p),
{
    lemma_parse_literals(p, Seq::empty());
    if p.len() > 0 {
        let first = Node::Lit(seq![p[0]]);
        lemma_find_literal(p[0], line);
        lemma_find_is_first(first, line);
        match first_index_of(line, p[0]) {
            Some(k) => {
                let rest = line.skip(k);
                lemma_sequence_literals(p, 0, rest);
                assert(p.skip(0) =~= p);
                assert(sequence_len(literals(p), rest) == sequence_from(
                    literals(p),
                    0,
                    Some(rest),
                    None,
                ));
                if k + p.len() <= line.len() {
                    assert(rest.subrange(0, p.len() as int) =~= line.subrange(k, k + p.len()));
                }
            },
            None => {},
        }
    }
}

/// A pattern of literal graphemes alone occurs in the lines that hold it, and
/// in no other, for every line in which the pattern, where it stands at all,
/// stands at the first place that holds its first grapheme.
pub proof fn theorem_literal_pattern_contained(p: Seq<char>, line: Seq<char>)
    requires
        is_literal_text(p),
        contains(line, p) ==> occurs_at_first(line, p),
    ensures
        compile(p) matches Some(regex) && regex.accepts(line) == contains(line, p),
{
    theorem_literal_pattern(p, line);
}

/// Compiling one pattern text twice gives the same regex, and asking the same
/// regex about one line twice the same answer: both are functions of the text
/// and of the line alone.
pub proof fn theorem_deterministic(
    text: Seq<char>,
    first: Option<RegexModel>,
    second: Option<RegexModel>,
    line: Seq<char>,
)
    requires
        first == compile(text),
        second == compile(text),
    ensures
        first == second,
        first matches Some(a) ==> second matches Some(b) && a.accepts(line) == b.accepts(line),
{
}

/// A scope of a pattern: what `[` or `[^` opens, and what `(` opens.
pub enum Scope {
    Group,
    Alternation,
}

/// Whether `text` can follow in a pattern in which the scopes `open` are open,
/// the innermost last, and in which a node stands in front of `text` in the
/// innermost of them (`has_node`).
///
/// Every token has to be readable. A quantifier needs a node in front of it, in
/// its own scope. A closing token closes the innermost scope, and has to be the
/// one that belongs to it; a `|` stands in an alternation. At the end of the text
/// no scope is open.
pub open spec fn well_formed_from(text: Seq<char>, open: Seq<Scope>, has_node: bool) -> bool
    decreases text.len(),
{
    match pick(text) {
        None => text.len() == 0 && open.len() == 0,
        Some((token, used)) => {
            let rest = text.skip(used);
            match token {
                Token::Itself(_) => well_formed_from(rest, open, true),
                Token::MoreThanZero | Token::MoreThanOne | Token::ZeroOrOne => has_node
                    && well_formed_from(rest, open, true),
                Token::PGroupOpen | Token::NGroupOpen => well_formed_from(
                    rest,
                    open.push(Scope::Group),
                    false,
                ),
                Token::AltOpen => well_formed_from(rest, open.push(Scope::Alternation), false),
                Token::GroupClose => open.len() > 0 && open.last() == Scope::Group
                    && well_formed_from(rest, open.drop_last(), true),
                Token::AltClose => open.len() > 0 && open.last() == Scope::Alternation
                    && well_formed_from(rest, open.drop_last(), true),
                Token::AltDelimiter => open.len() > 0 && open.last() == Scope::Alternation
                    && well_formed_from(rest, open, false),
            }
        },
    }
}

/// Whether `text` is well-formed as the body of a pattern: every scope that it
/// opens is closed by its own closing token, it closes no scope that it did not
/// open, every quantifier has a node in front of it, and no backslash stands at
/// its end.
pub open spec fn well_formed(text: Seq<char>) -> bool {
    well_formed_from(text, Seq::empty(), false)
}

/// Where reading ends at the end of the text or at a token that belongs to the
/// innermost open scope, what was read is well-formed if what follows is.
proof fn lemma_read_is_well_formed(text: Seq<char>, done: Seq<Node>, open: Seq<Scope>)
    ensures
        ({
            let p = parse_items(text, done);
            let has_node = done.len() > 0;
            match p.last {
                None => p.remaining.len() == 0 && open.len() == 0 ==> well_formed_from(
                    text,
                    open,
                    has_node,
                ),
                Some(Token::GroupClose) => open.len() > 0 && open.last() == Scope::Group
                    && well_formed_from(p.remaining, open.drop_last(), true) ==> well_formed_from(
                    text,
                    open,
                    has_node,
                ),
                Some(Token::AltClose) => open.len() > 0 && open.last() == Scope::Alternation
                    && well_formed_from(p.remaining, open.drop_last(), true) ==> well_formed_from(
                    text,
                    open,
                    has_node,
                ),
                Some(Token::AltDelimiter) => open.len() > 0 && open.last() == Scope::Alternation
                    && well_formed_from(p.remaining, open, false) ==> well_formed_from(
                    text,
                    open,
                    has_node,
                ),
                _ => true,
            }
        }),
    decreases text.len(), 1nat,
{
    match pick(text) {
        None => {},
        Some((token, used)) => {
            let rest = text.skip(used);
            match token {
                Token::Itself(node) => {
                    lemma_read_is_well_formed(rest, done.push(node), open);
                },
                Token::MoreThanZero => if done.len() > 0 {
                    lemma_read_is_well_formed(
                        rest,
                        done.drop_last().push(Node::MoreThanZero(Box::new(done.last()))),
                        open,
                    );
                },
                Token::MoreThanOne => if done.len() > 0 {
                    lemma_read_is_well_formed(
                        rest,
                        done.drop_last().push(Node::MoreThanOne(Box::new(done.last()))),
                        open,
                    );
                },
                Token::ZeroOrOne => if done.len() > 0 {
                    lemma_read_is_well_formed(
                        rest,
                        done.drop_last().push(Node::ZeroOrOne(Box::new(done.last()))),
                        open,
                    );
                },
                Token::PGroupOpen => {
                    let group = parse_items(rest, Seq::empty());
                    let inside = open.push(Scope::Group);
                    assert(inside.drop_last() =~= open);
                    lemma_read_is_well_formed(rest, Seq::empty(), inside);
                    if group.last == Some(Token::GroupClose) && group.remaining.len()
                        < text.len() {
                        lemma_read_is_well_formed(
                            group.remaining,
                            done.push(Node::PGroup(group.nodes)),
                            open,
                        );
                    }
                },
                Token::NGroupOpen => {
                    let group = parse_items(rest, Seq::empty());
                    let inside = open.push(Scope::Group);
                    assert(inside.drop_last() =~= open);
                    lemma_read_is_well_formed(rest, Seq::empty(), inside);
                    if group.last == Some(Token::GroupClose) && group.remaining.len()
                        < text.len() {
                        lemma_read_is_well_formed(
                            group.remaining,
                            done.push(Node::NGroup(group.nodes)),
                            open,
                        );
                    }
                },
                Token::AltOpen => {
                    lemma_branches_are_well_formed(rest, Seq::empty(), open);
                    if let Some((branches, remaining)) = parse_branches(rest, Seq::empty()) {
                        if remaining.len() < text.len() {
                            lemma_read_is_well_formed(
                                remaining,
                                done.push(Node::Alternation(branches)),
                                open,
                            );
                        }
                    }
                },
                _ => {},
            }
        },
    }
}

/// The branches of an alternation that is closed are well-formed if what
/// follows the alternation is.
proof fn lemma_branches_are_well_formed(
    text: Seq<char>,
    done: Seq<Seq<Node>>,
    open: Seq<Scope>,
)
    ensures
        parse_branches(text, done) matches Some((_, remaining)) ==> (well_formed_from(
            remaining,
            open,
            true,
        ) ==> well_formed_from(text, open.push(Scope::Alternation), false)),
    decreases text.len(), 2nat,
{
    let branch = parse_items(text, Seq::empty());
    let inside = open.push(Scope::Alternation);
    assert(inside.drop_last() =~= open);
    lemma_read_is_well_formed(text, Seq::empty(), inside);
    if branch.last == Some(Token::AltDelimiter) && branch.remaining.len() < text.len() {
        lemma_branches_are_well_formed(branch.remaining, done.push(branch.nodes), open);
    }
}

/// What is well-formed is read up to the token that belongs to the innermost
/// open scope, or to the end of the text where no scope is open, and what
/// follows is well-formed again.
proof fn lemma_well_formed_is_read(text: Seq<char>, done: Seq<Node>, open: Seq<Scope>)
    requires
        well_formed_from(text, open, done.len() > 0),
    ensures
        ({
            let p = parse_items(text, done);
            if open.len() == 0 {
                p.is_complete()
            } else if open.last() == Scope::Group {
                p.last == Some(Token::GroupClose) && well_formed_from(
                    p.remaining,
                    open.drop_last(),
                    true,
                )
            } else {
                ||| p.last == Some(Token::AltClose) && well_formed_from(
                    p.remaining,
                    open.drop_last(),
                    true,
                )
                ||| p.last == Some(Token::AltDelimiter) && well_formed_from(
                    p.remaining,
                    open,
                    false,
                )
            }
        }),
    decreases text.len(), 1nat,
{
    match pick(text) {
        None => {},
        Some((token, used)) => {
            let rest = text.skip(used);
            match token {
                Token::Itself(node) => {
                    lemma_well_formed_is_read(rest, done.push(node), open);
                },
                Token::MoreThanZero => {
                    lemma_well_formed_is_read(
                        rest,
                        done.drop_last().push(Node::MoreThanZero(Box::new(done.last()))),
                        open,
                    );
                },
                Token::MoreThanOne => {
                    lemma_well_formed_is_read(
                        rest,
                        done.drop_last().push(Node::MoreThanOne(Box::new(done.last()))),
                        open,
                    );
                },
                Token::ZeroOrOne => {
                    lemma_well_formed_is_read(
                        rest,
                        done.drop_last().push(Node::ZeroOrOne(Box::new(done.last()))),
                        open,
                    );
                },
                Token::PGroupOpen => {
                    let group = parse_items(rest, Seq::empty());
                    let inside = open.push(Scope::Group);
                    assert(inside.drop_last() =~= open);
                    lemma_well_formed_is_read(rest, Seq::empty(), inside);
                    lemma_parse_items_progress(rest, Seq::empty());
                    lemma_well_formed_is_read(
                        group.remaining,
                        done.push(Node::PGroup(group.nodes)),
                        open,
                    );
                },
                Token::NGroupOpen => {
                    let group = parse_items(rest, Seq::empty());
                    let inside = open.push(Scope::Group);
                    assert(inside.drop_last() =~= open);
                    lemma_well_formed_is_read(rest, Seq::empty(), inside);
                    lemma_parse_items_progress(rest, Seq::empty());
                    lemma_well_formed_is_read(
                        group.remaining,
                        done.push(Node::NGroup(group.nodes)),
                        open,
                    );
                },
                Token::AltOpen => {
                    lemma_well_formed_branches_are_read(rest, Seq::empty(), open);
                    let (branches, remaining) = parse_branches(rest, Seq::empty()).unwrap();
                    lemma_well_formed_is_read(
                        remaining,
                        done.push(Node::Alternation(branches)),
                        open,
                    );
                },
                _ => {},
            }
        },
    }
}

/// The branches of a well-formed alternation are read up to the token that
/// closes it, and what follows is well-formed again.
proof fn lemma_well_formed_branches_are_read(
    text: Seq<char>,
    done: Seq<Seq<Node>>,
    open: Seq<Scope>,
)
    requires
        well_formed_from(text, open.push(Scope::Alternation), false),
    ensures
        parse_branches(text, done) matches Some((_, remaining)) && remaining.len() < text.len()
            && well_formed_from(remaining, open, true),
    decreases text.len(), 2nat,
{
    let branch = parse_items(text, Seq::empty());
    let inside = open.push(Scope::Alternation);
    assert(inside.drop_last() =~= open);
    lemma_well_formed_is_read(text, Seq::empty(), inside);
    lemma_parse_items_progress(text, Seq::empty());
    if branch.last == Some(Token::AltDelimiter) {
        lemma_well_formed_branches_are_read(branch.remaining, done.push(branch.nodes), open);
    }
}

/// The texts that compile are those with a well-formed body. So a text that
/// opens a scope and does not close it, that closes a scope which is not open,
/// or that has a quantifier with no node in front of it, is not compiled: it is
/// refused.
pub proof fn theorem_compiled_iff_well_formed(text: Seq<char>)
    ensures
        compile(text) is Some <==> well_formed(body(text)),
{
    lemma_read_is_well_formed(body(text), Seq::empty(), Seq::empty());
    if well_formed(body(text)) {
        lemma_well_formed_is_read(body(text), Seq::empty(), Seq::empty());
    }
}

} // verus!
