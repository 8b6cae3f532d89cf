//! The cursor over the input: a byte offset that only moves forward over
//! whole characters where the reader stops.
use vstd::prelude::*;
use vstd::string::*;
use vstd::utf8::*;
use crate::error::{after_char, is_unexpected, is_unexpected_after, SyntaxError};
use crate::grammar::{byte_at, char_at, lemma_skip_ws, skip_ws};
use crate::text::{
    lemma_ascii_boundary, lemma_boundary_at, lemma_boundary_step, lemma_first_char, lemma_str_decodes,
};

verus! {

broadcast use vstd::seq::group_seq_axioms, lemma_skip_ws;

/// The position of the reader in its input.
#[derive(Debug)]
pub struct Deserializer<'s> {
    input: &'s str,
    bytes: &'s [u8],
    index: usize,
}

impl<'s> Deserializer<'s> {
    /// The bytes of the input.
    pub closed spec fn text(&self) -> Seq<u8> {
        self.bytes@
    }

    /// The offset of the next byte to read.
    pub closed spec fn pos(&self) -> int {
        self.index as int
    }

    pub closed spec fn holds_input(&self) -> bool {
        self.bytes@ == self.input.spec_bytes() && self.index <= self.bytes@.len()
            && self.bytes@.len() <= usize::MAX
    }

    pub open spec fn wf(&self) -> bool {
        &&& self.holds_input()
        &&& valid_utf8(self.text())
        &&& 0 <= self.pos() <= self.text().len()
        &&& is_char_boundary(self.text(), self.pos())
        &&& self.text().len() <= usize::MAX
    }

    pub fn new(input: &'s str) -> (r: Self)
        ensures
            r.wf(),
            r.text() == input.spec_bytes(),
            r.pos() == 0,
    {
        proof {
            lemma_str_decodes(input);
            is_char_boundary_start_end_of_seq(input.spec_bytes());
        }
        let bytes = input.as_bytes();
        let len = bytes.len();
        proof {
            // the length of the input fits a `usize`
            assert(bytes@.len() == len);
        }
        Deserializer { input, bytes, index: 0 }
    }

    /// The number of bytes read so far.
    pub fn consumed(&self) -> (r: usize)
        requires
            self.wf(),
        ensures
            r == self.pos(),
    {
        self.index
    }

    /// The number of bytes in the input.
    pub(crate) fn len(&self) -> (r: usize)
        requires
            self.wf(),
        ensures
            r == self.text().len(),
    {
        self.bytes.len()
    }

    /// The byte at offset `p`, if there is one.
    pub(crate) fn byte(&self, p: usize) -> (r: Option<u8>)
        requires
            self.wf(),
        ensures
            r == byte_at(self.text(), p as int),
    {
        if p < self.bytes.len() {
            Some(self.bytes[p])
        } else {
            None
        }
    }

    /// The next byte, without moving.
    pub(crate) fn peek(&self) -> (r: Option<u8>)
        requires
            self.wf(),
        ensures
            r == byte_at(self.text(), self.pos()),
    {
        self.byte(self.index)
    }

    /// The next byte, moving past it when it is a whole (ASCII) character.
    pub(crate) fn next_byte(&mut self) -> (r: Option<u8>)
        requires
            old(self).wf(),
        ensures
            final(self).wf(),
            final(self).text() == old(self).text(),
            r == byte_at(old(self).text(), old(self).pos()),
            final(self).pos() == if r is Some && r->0 < 0x80 {
                old(self).pos() + 1
            } else {
                old(self).pos()
            },
    {
        let r = self.peek();
        match r {
            Some(c) => {
                if c < 0x80 {
                    proof {
                        lemma_ascii_boundary(self.text(), self.pos());
                    }
                    self.index = self.index + 1;
                }
            },
            None => {},
        }
        r
    }

    /// Moves past whitespace.
    pub(crate) fn skip_whitespace(&mut self)
        requires
            old(self).wf(),
        ensures
            final(self).wf(),
            final(self).text() == old(self).text(),
            final(self).pos() == skip_ws(old(self).text(), old(self).pos()),
    {
        let n = self.bytes.len();
        while self.index < n && (self.bytes[self.index] == 0x20 || self.bytes[self.index] == 0x09
            || self.bytes[self.index] == 0x0A || self.bytes[self.index] == 0x0D)
            invariant
                self.wf(),
                n == self.text().len(),
                self.text() == old(self).text(),
                old(self).pos() <= self.pos(),
                skip_ws(self.text(), self.pos()) == skip_ws(old(self).text(), old(self).pos()),
            decreases n - self.index,
        {
            proof {
                lemma_ascii_boundary(self.text(), self.pos());
            }
            self.index = self.index + 1;
        }
    }

    /// The first offset at or after `p` that does not hold whitespace,
    /// without moving.
    pub(crate) fn whitespace_end(&self, p: usize) -> (r: usize)
        requires
            self.wf(),
            p <= self.text().len(),
        ensures
            r == skip_ws(self.text(), p as int),
    {
        let n = self.bytes.len();
        let mut i = p;
        while i < n && (self.bytes[i] == 0x20 || self.bytes[i] == 0x09 || self.bytes[i] == 0x0A
            || self.bytes[i] == 0x0D)
            invariant
                self.wf(),
                n == self.text().len(),
                p <= i <= n,
                skip_ws(self.text(), i as int) == skip_ws(self.text(), p as int),
            decreases n - i,
        {
            i = i + 1;
        }
        i
    }

    /// Moves past whitespace and the byte after it, which it returns.
    pub(crate) fn next_non_whitespace_byte(&mut self) -> (r: Option<u8>)
        requires
            old(self).wf(),
        ensures
            final(self).wf(),
            final(self).text() == old(self).text(),
            r == byte_at(old(self).text(), skip_ws(old(self).text(), old(self).pos())),
            final(self).pos() == if r is Some && r->0 < 0x80 {
                skip_ws(old(self).text(), old(self).pos()) + 1
            } else {
                skip_ws(old(self).text(), old(self).pos())
            },
    {
        self.skip_whitespace();
        self.next_byte()
    }

    /// Moves to offset `p`, at or after the current one.
    pub(crate) fn advance_to(&mut self, p: usize)
        requires
            old(self).wf(),
            old(self).pos() <= p <= old(self).text().len(),
            is_char_boundary(old(self).text(), p as int),
        ensures
            final(self).wf(),
            final(self).text() == old(self).text(),
            final(self).pos() == p,
    {
        self.index = p;
    }

    /// The character that starts at offset `p`, or `None` at the end.
    pub(crate) fn char_at(&self, p: usize) -> (r: Option<char>)
        requires
            self.wf(),
            p <= self.text().len(),
            is_char_boundary(self.text(), p as int),
        ensures
            r == char_at(self.text(), p as int),
    {
        broadcast use vstd::string::group_string_axioms;

        let (_, rest) = self.input.split_at(p);
        proof {
            lemma_str_decodes(rest);
            assert(rest.spec_bytes() =~= self.text().subrange(p as int, self.text().len() as int));
            if p < self.text().len() {
                lemma_first_char(rest);
            } else {
                assert(rest.spec_bytes().len() == 0);
            }
        }
        let mut chars = rest.chars();
        chars.next()
    }

    /// The input between two character boundaries, borrowed.
    pub(crate) fn slice(&self, from: usize, to: usize) -> (r: &'s str)
        requires
            self.wf(),
            from <= to <= self.text().len(),
            is_char_boundary(self.text(), from as int),
            is_char_boundary(self.text(), to as int),
        ensures
            r.spec_bytes() == self.text().subrange(from as int, to as int),
    {
        let (head, _) = self.input.split_at(to);
        proof {
            assert(head.spec_bytes() =~= self.text().subrange(0, to as int));
            valid_utf8_split(self.text(), to as int);
            let hb = head.spec_bytes();
            if from < to {
                is_char_boundary_iff_not_is_continuation_byte(self.text(), from as int);
                is_char_boundary_iff_not_is_continuation_byte(hb, from as int);
            } else {
                is_char_boundary_start_end_of_seq(hb);
            }
        }
        let (_, r) = head.split_at(from);
        proof {
            assert(r.spec_bytes() =~= self.text().subrange(from as int, to as int));
        }
        r
    }

    /// The offset just past the character at `at`, or `at` at the end.
    pub(crate) fn char_end(&self, at: usize) -> (r: usize)
        requires
            self.wf(),
            at <= self.text().len(),
            is_char_boundary(self.text(), at as int),
        ensures
            r == after_char(self.text(), at as int),
    {
        let n = self.bytes.len();
        if at >= n {
            return at;
        }
        let c = self.char_at(at).unwrap();
        let v = c as u32;
        let w: usize = if v < 0x80 {
            1
        } else if v < 0x800 {
            2
        } else if v < 0x10000 {
            3
        } else {
            4
        };
        proof {
            let b = self.text();
            let rest = b.subrange(at as int, b.len() as int);
            valid_utf8_split(b, at as int);
            decode_utf8_first_scalar(rest);
            char_is_scalar(c);
            assert(c == decode_first_scalar(rest) as char);
            lemma_boundary_step(b, at as int);
            assert(take_first_scalar(rest).len() == length_of_first_scalar(rest));
            assert(encode_scalar(c as u32).len() == w);
        }
        at + w
    }

    /// The error for the character (or end) at offset `at`, reported at
    /// offset `location`.
    pub(crate) fn unexpected(&self, at: usize, location: usize, expected: Vec<char>) -> (r: SyntaxError)
        requires
            self.wf(),
            at <= self.text().len(),
            is_char_boundary(self.text(), at as int),
        ensures
            is_unexpected(r, self.text(), at as int, location as int, expected@),
    {
        SyntaxError::Unexpected {
            unexpected: self.char_at(at),
            expected,
            end_expected: false,
            location,
        }
    }

    /// The error for the character (or end) at offset `at`, reported just
    /// past it.
    pub(crate) fn unexpected_after(&self, at: usize, expected: Vec<char>) -> (r: SyntaxError)
        requires
            self.wf(),
            at <= self.text().len(),
            is_char_boundary(self.text(), at as int),
        ensures
            is_unexpected_after(r, self.text(), at as int, expected@),
    {
        let location = self.char_end(at);
        self.unexpected(at, location, expected)
    }
}

/// Offsets that the reader stops at are character boundaries: the start, the
/// end, and any offset just after an ASCII byte or at one.
pub proof fn lemma_stop_boundary(b: Seq<u8>, p: int)
    requires
        valid_utf8(b),
        0 <= p <= b.len(),
        p == 0 || p == b.len() || b[p] < 0x80 || b[p - 1] < 0x80,
    ensures
        is_char_boundary(b, p),
{
    if p == 0 {
        is_char_boundary_start_end_of_seq(b);
    } else if p == b.len() || b[p] < 0x80 {
        lemma_boundary_at(b, p);
    } else {
        lemma_ascii_boundary(b, p - 1);
    }
}

} // verus!
