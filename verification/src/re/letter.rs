//! A cursor that walks a text one grapheme at a time.
use crate::re::text::{
    byte_len_of, graphemes_before, lemma_first_grapheme, lemma_graphemes_before,
    lemma_graphemes_before_add, prefix_to, suffix_at, text_at, text_before, width,
};
use vstd::prelude::*;

verus! {

/// A forward-only cursor over a text. It hands out the graphemes of the text
/// in order, each as a slice of the text itself, and can show at any time what
/// it has not passed yet.
#[derive(Debug)]
pub struct Letters<'a> {
    inner: &'a str,
    cursor: usize,
}

impl<'a> Letters<'a> {
    /// The cursor always stands between two graphemes of its text.
    #[verifier::type_invariant]
    spec fn between_graphemes(&self) -> bool {
        graphemes_before(self.inner@, self.cursor as int) is Some
    }

    /// The text that the cursor walks.
    pub closed spec fn text(&self) -> Seq<char> {
        self.inner@
    }

    /// The number of bytes that the cursor has passed.
    pub closed spec fn position(&self) -> int {
        self.cursor as int
    }

    /// The part of the text that the cursor has not passed.
    pub closed spec fn remaining(&self) -> Seq<char> {
        text_at(self.inner@, self.cursor as int).unwrap()
    }

    /// A cursor in front of the first grapheme of `inner`.
    pub fn new(inner: &'a str) -> (r: Self)
        ensures
            r.text() == inner@,
            r.position() == 0,
            r.remaining() == inner@,
    {
        Self { inner, cursor: 0 }
    }

    /// What the cursor has not passed, as a slice of the text.
    pub fn tail(&self) -> (r: &'a str)
        ensures
            r@ == self.remaining(),
            text_at(self.text(), self.position()) == Some(self.remaining()),
    {
        proof {
            use_type_invariant(self);
        }
        suffix_at(self.inner, self.cursor)
    }

    /// The next `bytes` bytes behind the cursor, where they are whole graphemes.
    fn get(&self, bytes: usize) -> (r: Option<&'a str>)
        ensures
            match text_before(self.remaining(), bytes as int) {
                Some(g) => r matches Some(x) && x@ == g,
                None => r is None,
            },
    {
        prefix_to(self.tail(), bytes)
    }

    /// Steps over one grapheme and returns it, or returns `None` at the end of
    /// the text. The grapheme is found by trying one byte, then two, and so on,
    /// until the bytes tried end between two graphemes; in a `str` that happens
    /// within four bytes.
    pub fn next(&mut self) -> (r: Option<&'a str>)
        ensures
            final(self).text() == old(self).text(),
            match r {
                Some(g) => {
                    &&& old(self).remaining().len() > 0
                    &&& g@ == seq![old(self).remaining()[0]]
                    &&& final(self).remaining() == old(self).remaining().drop_first()
                    &&& final(self).position() == old(self).position() + width(
                        old(self).remaining()[0],
                    )
                },
                None => {
                    &&& old(self).remaining().len() == 0
                    &&& final(self).remaining() == old(self).remaining()
                    &&& final(self).position() == old(self).position()
                },
            },
    {
        proof {
            use_type_invariant(&*self);
            lemma_graphemes_before(self.inner@, self.cursor as int);
        }
        let len = byte_len_of(self.inner);
        if self.cursor >= len {
            return None;
        }
        let ghost rest = self.remaining();
        let mut bytes: usize = 1;
        let mut next_char = self.get(bytes);
        while next_char.is_none()
            invariant
                rest == self.remaining(),
                rest.len() > 0,
                1 <= bytes <= width(rest[0]) <= 4,
                match text_before(rest, bytes as int) {
                    Some(g) => next_char matches Some(x) && x@ == g,
                    None => next_char is None,
                },
            decreases width(rest[0]) - bytes,
        {
            proof {
                lemma_first_grapheme(rest, bytes as int);
            }
            bytes += 1;
            next_char = self.get(bytes);
        }
        proof {
            lemma_first_grapheme(rest, bytes as int);
            lemma_graphemes_before_add(self.inner@, self.cursor as int, bytes as int);
        }
        self.cursor += bytes;
        next_char
    }
}

} // verus!
