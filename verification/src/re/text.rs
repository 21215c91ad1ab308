//! How a text lies in memory.
//!
//! A text is a sequence of graphemes, each one Unicode scalar value. In memory
//! it is the UTF-8 encoding of that sequence, and the matcher measures what it
//! consumes in bytes of that encoding. This module relates the two: which byte
//! offsets fall between graphemes, and what text lies on either side of one.
use vstd::prelude::*;
use vstd::string::StringSliceAdditionalSpecFns;
use vstd::utf8::*;

verus! {

/// The number of bytes that the encoding of `c` takes: one to four.
pub open spec fn width(c: char) -> nat {
    encode_scalar(c as u32).len()
}

/// The number of bytes that the encoding of `t` takes.
pub open spec fn byte_len(t: Seq<char>) -> nat {
    encode_utf8(t).len()
}

/// The number of graphemes of `t` that lie in front of byte `offset`, where
/// `offset` falls between two graphemes, in front of the first or behind the
/// last. `None` where it falls inside a grapheme or outside the text.
pub open spec fn graphemes_before(t: Seq<char>, offset: int) -> Option<int>
    decreases t.len(),
{
    if offset == 0 {
        Some(0)
    } else if offset < 0 || t.len() == 0 {
        None
    } else {
        match graphemes_before(t.drop_first(), offset - width(t[0])) {
            Some(k) => Some(k + 1),
            None => None,
        }
    }
}

/// The part of `t` from byte `offset` on, where `offset` falls between graphemes.
pub open spec fn text_at(t: Seq<char>, offset: int) -> Option<Seq<char>> {
    match graphemes_before(t, offset) {
        Some(k) => Some(t.skip(k)),
        None => None,
    }
}

/// The part of `t` in front of byte `offset`, where `offset` falls between
/// graphemes.
pub open spec fn text_before(t: Seq<char>, offset: int) -> Option<Seq<char>> {
    match graphemes_before(t, offset) {
        Some(k) => Some(t.take(k)),
        None => None,
    }
}

/// Whether the length of `t` in bytes, and one byte more, can be counted in a
/// `usize`. What a match takes is counted in a `usize`, and a negative group
/// takes one byte also at the end of a text. Every text that a `str` holds in
/// memory is of this kind.
pub open spec fn fits(t: Seq<char>) -> bool {
    byte_len(t) < usize::MAX
}

/// Whether `r` is what a matcher reports of the text `t`, where the model says
/// `taken`: the same, but nothing of a text that does not fit.
pub open spec fn reports(r: Option<usize>, taken: Option<nat>, t: Seq<char>) -> bool {
    match taken {
        Some(k) => if fits(t) {
            r matches Some(x) && x == k
        } else {
            r is None
        },
        None => r is None,
    }
}

/// A text is the encoding of its first grapheme followed by that of the rest.
pub proof fn lemma_byte_len_step(t: Seq<char>)
    requires
        t.len() > 0,
    ensures
        byte_len(t) == width(t[0]) + byte_len(t.drop_first()),
{
}

/// Two texts with the same encoding are the same text.
pub proof fn lemma_encoding_injective(a: Seq<char>, b: Seq<char>)
    requires
        encode_utf8(a) == encode_utf8(b),
    ensures
        a == b,
{
    encode_utf8_decode_utf8(a);
    encode_utf8_decode_utf8(b);
}

/// Where `offset` falls between graphemes, it splits the text and its
/// encoding alike, and nothing lies in front of a positive offset but whole
/// graphemes.
pub proof fn lemma_graphemes_before(t: Seq<char>, offset: int)
    ensures
        graphemes_before(t, offset) matches Some(k) ==> {
            &&& 0 <= k <= t.len()
            &&& 0 <= offset <= byte_len(t)
            &&& (offset > 0 ==> k > 0)
            &&& (k == t.len() <==> offset == byte_len(t))
            &&& byte_len(t.take(k)) == offset
            &&& byte_len(t.skip(k)) == byte_len(t) - offset
            &&& encode_utf8(t.take(k)) == encode_utf8(t).subrange(0, offset)
            &&& encode_utf8(t.skip(k)) == encode_utf8(t).subrange(offset, byte_len(t) as int)
        },
    decreases t.len(),
{
    let bytes = encode_utf8(t);
    if offset == 0 {
        assert(t.skip(0) =~= t);
    } else if offset > 0 && t.len() > 0 {
        let rest = t.drop_first();
        let w = width(t[0]) as int;
        lemma_graphemes_before(rest, offset - w);
        match graphemes_before(rest, offset - w) {
            Some(k) => {
                let head = encode_scalar(t[0] as u32);
                assert(t.take(k + 1).drop_first() =~= rest.take(k));
                assert(t.skip(k + 1) =~= rest.skip(k));
                assert(bytes.subrange(0, offset) =~= head + encode_utf8(rest).subrange(
                    0,
                    offset - w,
                ));
                assert(bytes.subrange(offset, bytes.len() as int) =~= encode_utf8(rest).subrange(
                    offset - w,
                    encode_utf8(rest).len() as int,
                ));
            },
            None => {},
        }
    }
}

/// Stepping over some graphemes and then over some more is stepping over all of
/// them at once.
pub proof fn lemma_graphemes_before_add(t: Seq<char>, a: int, b: int)
    requires
        graphemes_before(t, a) is Some,
        graphemes_before(t.skip(graphemes_before(t, a).unwrap()), b) is Some,
    ensures
        graphemes_before(t, a + b) == Some(
            graphemes_before(t, a).unwrap() + graphemes_before(
                t.skip(graphemes_before(t, a).unwrap()),
                b,
            ).unwrap(),
        ),
    decreases t.len(),
{
    let k = graphemes_before(t, a).unwrap();
    lemma_graphemes_before(t, a);
    if a == 0 {
        assert(t.skip(0) =~= t);
    } else {
        let rest = t.drop_first();
        assert(rest.skip(k - 1) =~= t.skip(k));
        lemma_graphemes_before_add(rest, a - width(t[0]), b);
    }
}

/// In front of the end of the first grapheme no offset but 0 falls between
/// graphemes.
pub proof fn lemma_first_grapheme(t: Seq<char>, offset: int)
    requires
        t.len() > 0,
        0 < offset <= width(t[0]),
    ensures
        graphemes_before(t, offset) == (if offset == width(t[0]) {
            Some(1int)
        } else {
            None
        }),
        offset == width(t[0]) ==> text_before(t, offset) == Some(seq![t[0]]),
        offset == width(t[0]) ==> text_at(t, offset) == Some(t.drop_first()),
{
    reveal_with_fuel(graphemes_before, 2);
}

/// The offsets that fall between graphemes are the character boundaries of the
/// encoding.
pub proof fn lemma_boundary_iff(t: Seq<char>, offset: int)
    ensures
        is_char_boundary(encode_utf8(t), offset) <==> graphemes_before(t, offset) is Some,
    decreases t.len(),
{
    let bytes = encode_utf8(t);
    encode_utf8_valid_utf8(t);
    if offset > 0 && t.len() > 0 {
        let rest = t.drop_first();
        encode_utf8_first_scalar(t);
        assert(pop_first_scalar(bytes) =~= encode_utf8(rest));
        lemma_boundary_iff(rest, offset - width(t[0]));
    }
}

/// A text of one grapheme takes the bytes of that grapheme.
pub proof fn lemma_byte_len_single(c: char)
    ensures
        byte_len(seq![c]) == width(c),
{
    lemma_byte_len_step(seq![c]);
}

/// The length of `s` in bytes.
pub fn byte_len_of(s: &str) -> (n: usize)
    ensures
        n == byte_len(s@),
{
    s.as_bytes().len()
}

/// Whether `a` and `b` are the same text.
pub fn same_text(a: &str, b: &str) -> (r: bool)
    ensures
        r == (a@ == b@),
{
    let x = a.as_bytes();
    let y = b.as_bytes();
    if x.len() != y.len() {
        return false;
    }
    let mut i: usize = 0;
    while i < x.len()
        invariant
            i <= x.len(),
            x.len() == y.len(),
            x@ == encode_utf8(a@),
            y@ == encode_utf8(b@),
            forall|j: int| 0 <= j < i ==> x@[j] == y@[j],
        decreases x.len() - i,
    {
        if x[i] != y[i] {
            return false;
        }
        i += 1;
    }
    proof {
        assert(x@ =~= y@);
        lemma_encoding_injective(a@, b@);
    }
    true
}

/// The part of `s` from byte `offset` on.
pub fn suffix_at<'a>(s: &'a str, offset: usize) -> (r: &'a str)
    requires
        text_at(s@, offset as int) is Some,
    ensures
        text_at(s@, offset as int) == Some(r@),
{
    proof {
        lemma_boundary_iff(s@, offset as int);
        lemma_graphemes_before(s@, offset as int);
    }
    let (_, rest) = s.split_at(offset);
    proof {
        lemma_encoding_injective(rest@, text_at(s@, offset as int).unwrap());
    }
    rest
}

/// The part of `s` from byte `offset` on, or `None` where `offset` does not fall
/// between graphemes of `s`.
pub fn suffix_from<'a>(s: &'a str, offset: usize) -> (r: Option<&'a str>)
    ensures
        match text_at(s@, offset as int) {
            Some(u) => r matches Some(v) && v@ == u,
            None => r is None,
        },
{
    proof {
        lemma_boundary_iff(s@, offset as int);
    }
    if s.is_char_boundary(offset) {
        Some(suffix_at(s, offset))
    } else {
        None
    }
}

/// The part of `s` in front of byte `offset`, or `None` where `offset` does not
/// fall between graphemes of `s`.
pub fn prefix_to<'a>(s: &'a str, offset: usize) -> (r: Option<&'a str>)
    ensures
        match text_before(s@, offset as int) {
            Some(u) => r matches Some(v) && v@ == u,
            None => r is None,
        },
{
    proof {
        lemma_boundary_iff(s@, offset as int);
        lemma_graphemes_before(s@, offset as int);
    }
    if s.is_char_boundary(offset) {
        let (front, _) = s.split_at(offset);
        proof {
            lemma_encoding_injective(front@, text_before(s@, offset as int).unwrap());
        }
        Some(front)
    } else {
        None
    }
}

} // verus!
