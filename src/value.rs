//! Handles on the values of the input. A handle does not hold the cursor:
//! each of its operations takes it, and a handle that is not read to its end
//! is drained by `skip` or `close`, which leave the cursor just past the value.
use vstd::prelude::*;
use std::borrow::Cow;
use crate::cursor::{lemma_stop_boundary, Deserializer};
use crate::error::{
    expect_chars_1, expect_chars_2, expect_value_start, is_unexpected, is_unexpected_after, JSONType,
    SyntaxError,
};
use crate::grammar::{
    array_first, array_next, byte_at, lemma_leading_ws, lemma_skip_ws, lemma_skip_ws_twice,
    lemma_value_forward, matches_at, member_end, member_then_next, number_end, number_scan,
    object_first, object_next, skip_ws, string_end, string_scan, string_text, value_end,
    value_start_chars, word_false, word_null, word_true,
};
use crate::number::{read_number, Number};
use crate::string::read_string;

verus! {

broadcast use vstd::seq::group_seq_axioms, lemma_skip_ws, vstd::array::group_array_axioms;

/// A handle on an object, read entry by entry.
#[derive(Debug)]
pub struct ObjectDeserializer {
    /// Its `{` has been read.
    pub past_first: bool,
}

/// A handle on one `"key": value` member of an object.
#[derive(Debug)]
pub struct ObjectFieldDeserializer {
    unit: (),
}

/// A handle on an array, read element by element.
#[derive(Debug)]
pub struct ArrayDeserializer {
    /// Its `[` has been read.
    pub past_first: bool,
}

/// A handle on a string.
#[derive(Debug)]
pub struct StringDeserializer;

/// A handle on a number.
#[derive(Debug)]
pub struct NumberDeserializer;

/// The next value of the input, classified by its first character.
/// Booleans and null have already been read.
#[derive(Debug)]
pub enum ValueDeserializer {
    Object(ObjectDeserializer),
    Array(ArrayDeserializer),
    String(StringDeserializer),
    Number(NumberDeserializer),
    Boolean(bool),
    Null,
}

impl ObjectDeserializer {
    /// Where the object ends when the cursor stands at `p`, if it is well
    /// formed from there on.
    pub open spec fn end(&self, b: Seq<u8>, p: int) -> Option<int> {
        if !self.past_first {
            let q = skip_ws(b, p);
            if 0 <= p <= q < b.len() && b[q] == 0x7B {
                object_first(b, q + 1)
            } else {
                None
            }
        } else {
            object_next(b, p)
        }
    }

    /// The next entry, or `None` when the closing `}` comes next; the `}`
    /// itself is left for `close`.
    ///
    /// An entry must be accepted or skipped before the next call.
    #[verifier::rlimit(30)]
    pub fn next_entry<'s>(&mut self, d: &mut Deserializer<'s>) -> (r: Result<
        Option<ObjectFieldDeserializer>,
        SyntaxError,
    >)
        requires
            old(d).wf(),
        ensures
            final(d).wf(),
            final(d).text() == old(d).text(),
            old(d).pos() <= final(d).pos(),
            ({
                let b = old(d).text();
                let q = skip_ws(b, old(d).pos());
                match r {
                    Ok(None) => {
                        &&& final(self).past_first
                        &&& (!old(self).past_first && byte_at(b, q) == Some(0x7Bu8) && byte_at(
                            b,
                            skip_ws(b, q + 1),
                        ) == Some(0x7Du8) && final(d).pos() == q + 1) || (old(self).past_first
                            && byte_at(b, q) == Some(0x7Du8) && final(d).pos() == old(d).pos())
                        &&& byte_at(b, skip_ws(b, final(d).pos())) == Some(0x7Du8)
                        &&& final(self).end(b, final(d).pos()) == old(self).end(b, old(d).pos())
                    },
                    Ok(Some(_)) => {
                        &&& final(self).past_first
                        &&& (!old(self).past_first && byte_at(b, q) == Some(0x7Bu8) && byte_at(
                            b,
                            skip_ws(b, q + 1),
                        ) != Some(0x7Du8)) || (old(self).past_first && byte_at(b, q) == Some(
                            0x2Cu8,
                        ))
                        &&& final(d).pos() == q + 1
                        &&& old(self).end(b, old(d).pos()) == member_then_next(b, final(d).pos())
                    },
                    Err(e) => {
                        &&& old(self).end(b, old(d).pos()) is None
                        &&& final(d).pos() == old(d).pos()
                        &&& !old(self).past_first ==> byte_at(b, q) != Some(0x7Bu8)
                            && is_unexpected_after(e, b, q, seq!['{'])
                        &&& old(self).past_first ==> byte_at(b, q) != Some(0x7Du8) && byte_at(
                            b,
                            q,
                        ) != Some(0x2Cu8) && is_unexpected(e, b, q, old(d).pos(), seq!['}', ','])
                    },
                }
            }),
    {
        let ghost b = d.text();
        let q = d.whitespace_end(d.consumed());
        proof {
            if q > d.pos() {
                lemma_stop_boundary(b, q as int);
            }
        }
        let c = d.byte(q);
        if !self.past_first {
            if c != Some(0x7Bu8) {
                return Err(d.unexpected_after(q, expect_chars_1('{')));
            }
            proof {
                lemma_stop_boundary(b, q + 1);
                lemma_leading_ws(b, q + 1);
                lemma_skip_ws_twice(b, q + 1);
            }
            d.advance_to(q + 1);
            self.past_first = true;
            let r = d.whitespace_end(q + 1);
            if d.byte(r) == Some(0x7Du8) {
                return Ok(None);
            }
            Ok(Some(ObjectFieldDeserializer { unit: () }))
        } else if c == Some(0x7Du8) {
            Ok(None)
        } else if c == Some(0x2Cu8) {
            proof {
                lemma_stop_boundary(b, q + 1);
            }
            d.advance_to(q + 1);
            Ok(Some(ObjectFieldDeserializer { unit: () }))
        } else {
            Err(d.unexpected(q, d.consumed(), expect_chars_2('}', ',')))
        }
    }
}

/// Where the `:` of the member after whitespace at `p` stands, when its key
/// is a well-formed string.
pub open spec fn colon_at(b: Seq<u8>, p: int) -> int {
    skip_ws(b, string_scan(b, skip_ws(b, p) + 1)->Ok_0)
}

/// The error that reading the member after whitespace at `p` stops at: in
/// its key, at a missing `:`, or at the first character of its value.
pub open spec fn member_error(b: Seq<u8>, p: int, e: SyntaxError) -> bool {
    let q = skip_ws(b, p);
    if byte_at(b, q) != Some(0x22u8) {
        is_unexpected_after(e, b, q, seq!['"'])
    } else {
        match string_scan(b, q + 1) {
            Err(key_error) => e == key_error,
            Ok(after_key) => {
                let c = skip_ws(b, after_key);
                if byte_at(b, c) != Some(0x3Au8) {
                    is_unexpected_after(e, b, c, seq![':'])
                } else {
                    is_unexpected(e, b, skip_ws(b, c + 1), c + 1, value_start_chars())
                }
            },
        }
    }
}

impl ObjectFieldDeserializer {
    /// Reads the key, the `:` and the first character of the value.
    #[verifier::rlimit(30)]
    pub fn accept<'s>(self, d: &mut Deserializer<'s>) -> (r: Result<
        (Cow<'s, str>, ValueDeserializer),
        SyntaxError,
    >)
        requires
            old(d).wf(),
        ensures
            final(d).wf(),
            final(d).text() == old(d).text(),
            r is Ok <==> crate::string::string_read_ok(old(d).text(), old(d).pos()) && byte_at(
                old(d).text(),
                colon_at(old(d).text(), old(d).pos()),
            ) == Some(0x3Au8) && probe_ok(old(d).text(), colon_at(old(d).text(), old(d).pos()) + 1),
            match r {
                Ok((key, value)) => {
                    &&& old(d).pos() < final(d).pos()
                    &&& member_end(old(d).text(), old(d).pos()) == value.end(
                        old(d).text(),
                        final(d).pos(),
                    )
                    &&& vstd::utf8::encode_utf8(key@) == string_text(
                        old(d).text(),
                        skip_ws(old(d).text(), old(d).pos()) + 1,
                    )
                    &&& (value, final(d).pos() as int) == probe(
                        old(d).text(),
                        colon_at(old(d).text(), old(d).pos()) + 1,
                    )
                },
                Err(e) => member_end(old(d).text(), old(d).pos()) is None && member_error(
                    old(d).text(),
                    old(d).pos(),
                    e,
                ),
            },
    {
        let ghost b = d.text();
        let ghost origin = d.pos();
        let key = read_string(d)?;
        proof {
            crate::grammar::lemma_string_forward(b, skip_ws(b, origin) + 1);
        }
        d.skip_whitespace();
        let c = d.consumed();
        if d.next_byte() != Some(0x3Au8) {
            return Err(d.unexpected_after(c, expect_chars_1(':')));
        }
        let value = ValueDeserializer::new(d)?;
        Ok((key, value))
    }

    /// Reads the member to its end and drops it.
    pub fn skip<'s>(self, d: &mut Deserializer<'s>) -> (r: Result<(), SyntaxError>)
        requires
            old(d).wf(),
        ensures
            final(d).wf(),
            final(d).text() == old(d).text(),
            r is Ok <==> member_end(old(d).text(), old(d).pos()) is Some,
            r is Ok ==> final(d).pos() == member_end(old(d).text(), old(d).pos())->0,
        decreases old(d).text().len() - old(d).pos(), 2int,
    {
        let (_, value) = self.accept(d)?;
        value.skip(d)
    }
}

/// The error that reading the next element of an array stops at, with the
/// cursor at `p`: at its `[`, at the separator after an element, or at the
/// first character of the element.
pub open spec fn element_error(b: Seq<u8>, p: int, past_first: bool, e: SyntaxError) -> bool {
    let q = skip_ws(b, p);
    if !past_first && byte_at(b, q) != Some(0x5Bu8) {
        is_unexpected_after(e, b, q, seq!['['])
    } else if past_first && byte_at(b, q) != Some(0x2Cu8) {
        is_unexpected(e, b, q, p, seq![']', ','])
    } else {
        is_unexpected(e, b, skip_ws(b, q + 1), q + 1, value_start_chars())
    }
}

impl ArrayDeserializer {
    /// Where the array ends when the cursor stands at `p`, if it is well
    /// formed from there on.
    pub open spec fn end(&self, b: Seq<u8>, p: int) -> Option<int> {
        if !self.past_first {
            let q = skip_ws(b, p);
            if 0 <= p <= q < b.len() && b[q] == 0x5B {
                array_first(b, q + 1)
            } else {
                None
            }
        } else {
            array_next(b, p)
        }
    }

    /// The next element, or `None` when the closing `]` comes next; the `]`
    /// itself is left for `close`.
    ///
    /// An element must be read or skipped before the next call.
    #[verifier::rlimit(30)]
    pub fn next_entry<'s>(&mut self, d: &mut Deserializer<'s>) -> (r: Result<
        Option<ValueDeserializer>,
        SyntaxError,
    >)
        requires
            old(d).wf(),
        ensures
            final(d).wf(),
            final(d).text() == old(d).text(),
            old(d).pos() <= final(d).pos(),
            ({
                let b = old(d).text();
                let q = skip_ws(b, old(d).pos());
                match r {
                    Ok(None) => {
                        &&& final(self).past_first
                        &&& (!old(self).past_first && byte_at(b, q) == Some(0x5Bu8) && byte_at(
                            b,
                            skip_ws(b, q + 1),
                        ) == Some(0x5Du8) && final(d).pos() == q + 1) || (old(self).past_first
                            && byte_at(b, q) == Some(0x5Du8) && final(d).pos() == old(d).pos())
                        &&& byte_at(b, skip_ws(b, final(d).pos())) == Some(0x5Du8)
                        &&& final(self).end(b, final(d).pos()) == old(self).end(b, old(d).pos())
                    },
                    Ok(Some(value)) => {
                        &&& final(self).past_first
                        &&& old(d).pos() < final(d).pos()
                        &&& (!old(self).past_first && byte_at(b, q) == Some(0x5Bu8) && byte_at(
                            b,
                            skip_ws(b, q + 1),
                        ) != Some(0x5Du8)) || (old(self).past_first && byte_at(b, q) == Some(
                            0x2Cu8,
                        ))
                        &&& (value, final(d).pos() as int) == probe(b, q + 1)
                        &&& probe_ok(b, q + 1)
                        &&& value.end(b, final(d).pos()) == value_end(b, q + 1)
                        &&& match value.end(b, final(d).pos()) {
                            Some(e) => old(d).pos() < e <= b.len() && old(self).end(
                                b,
                                old(d).pos(),
                            ) == array_next(b, e),
                            None => old(self).end(b, old(d).pos()) is None,
                        }
                    },
                    Err(e) => {
                        &&& old(self).end(b, old(d).pos()) is None
                        &&& element_error(b, old(d).pos(), old(self).past_first, e)
                        &&& (!old(self).past_first && byte_at(b, q) != Some(0x5Bu8)) || (
                        old(self).past_first && byte_at(b, q) != Some(0x2Cu8)) ==> final(d).pos()
                            == old(d).pos()
                    },
                }
            }),
    {
        let ghost b = d.text();
        let q = d.whitespace_end(d.consumed());
        proof {
            if q > d.pos() {
                lemma_stop_boundary(b, q as int);
            }
        }
        let c = d.byte(q);
        if !self.past_first {
            if c != Some(0x5Bu8) {
                return Err(d.unexpected_after(q, expect_chars_1('[')));
            }
            proof {
                lemma_stop_boundary(b, q + 1);
                lemma_skip_ws_twice(b, q + 1);
            }
            d.advance_to(q + 1);
            self.past_first = true;
            let r = d.whitespace_end(q + 1);
            if d.byte(r) == Some(0x5Du8) {
                return Ok(None);
            }
        } else if c == Some(0x5Du8) {
            return Ok(None);
        } else if c == Some(0x2Cu8) {
            proof {
                lemma_stop_boundary(b, q + 1);
            }
            d.advance_to(q + 1);
        } else {
            return Err(d.unexpected(q, d.consumed(), expect_chars_2(']', ',')));
        }
        proof {
            lemma_leading_ws(b, q + 1);
            if value_end(b, q + 1) is Some {
                lemma_value_forward(b, q + 1);
            }
        }
        let value = ValueDeserializer::new(d)?;
        Ok(Some(value))
    }
}

impl StringDeserializer {
    /// Reads the string: borrowed from the input when it holds no escape.
    pub fn accept<'s>(self, d: &mut Deserializer<'s>) -> (r: Result<Cow<'s, str>, SyntaxError>)
        requires
            old(d).wf(),
        ensures
            final(d).wf(),
            final(d).text() == old(d).text(),
            r is Ok <==> string_handle_end(old(d).text(), old(d).pos()) is Some,
            r matches Ok(s) ==> {
                let b = old(d).text();
                let q = skip_ws(b, old(d).pos());
                &&& final(d).pos() == string_handle_end(b, old(d).pos())->0
                &&& vstd::utf8::encode_utf8(s@) == string_text(b, q + 1)
                &&& (s is Borrowed <==> !crate::grammar::has_escape(b, q + 1))
                &&& (s is Borrowed ==> vstd::utf8::encode_utf8(s@) == b.subrange(
                    q + 1,
                    final(d).pos() - 1,
                ))
            },
            r matches Err(e) ==> {
                let b = old(d).text();
                let q = skip_ws(b, old(d).pos());
                &&& byte_at(b, q) != Some(0x22u8) ==> is_unexpected_after(e, b, q, seq!['"'])
                &&& byte_at(b, q) == Some(0x22u8) ==> string_scan(b, q + 1) == Err::<
                    int,
                    SyntaxError,
                >(e)
            },
    {
        read_string(d)
    }
}

/// Where a string that starts after whitespace at `p` ends.
pub open spec fn string_handle_end(b: Seq<u8>, p: int) -> Option<int> {
    let q = skip_ws(b, p);
    if byte_at(b, q) == Some(0x22u8) {
        string_end(b, q + 1)
    } else {
        None
    }
}

impl NumberDeserializer {
    /// Reads the number into a token.
    pub fn accept<'s>(self, d: &mut Deserializer<'s>) -> (r: Result<Number<'s>, SyntaxError>)
        requires
            old(d).wf(),
        ensures
            final(d).wf(),
            final(d).text() == old(d).text(),
            r is Ok <==> number_end(old(d).text(), old(d).pos()) is Some,
            r matches Ok(n) ==> {
                &&& n.wf()
                &&& n.describes(old(d).text(), number_scan(old(d).text(), old(d).pos())->Ok_0)
                &&& final(d).pos() == number_end(old(d).text(), old(d).pos())->0
            },
    {
        read_number(d)
    }
}

fn word_bytes_true() -> (r: Vec<u8>)
    ensures
        r@ == word_true(),
{
    let r = vec![0x74u8, 0x72u8, 0x75u8, 0x65u8];
    assert(r@ =~= word_true());
    r
}

fn word_bytes_false() -> (r: Vec<u8>)
    ensures
        r@ == word_false(),
{
    let r = vec![0x66u8, 0x61u8, 0x6Cu8, 0x73u8, 0x65u8];
    assert(r@ =~= word_false());
    r
}

fn word_bytes_null() -> (r: Vec<u8>)
    ensures
        r@ == word_null(),
{
    let r = vec![0x6Eu8, 0x75u8, 0x6Cu8, 0x6Cu8];
    assert(r@ =~= word_null());
    r
}

/// Whether the input holds `w` from offset `q` on.
fn matches_word(d: &Deserializer, q: usize, w: &Vec<u8>) -> (r: bool)
    requires
        d.wf(),
        q <= d.text().len(),
    ensures
        r == matches_at(d.text(), q as int, w@),
{
    let n = d.len();
    if w.len() > n - q {
        return false;
    }
    let mut i: usize = 0;
    while i < w.len()
        invariant
            d.wf(),
            n == d.text().len(),
            q + w@.len() <= n,
            0 <= i <= w@.len(),
            forall|j: int| 0 <= j < i ==> d.text()[q + j] == w@[j],
        decreases w@.len() - i,
    {
        if d.byte(q + i) != Some(w[i]) {
            proof {
                assert(d.text().subrange(q as int, q + w@.len())[i as int] != w@[i as int]);
            }
            return false;
        }
        i = i + 1;
    }
    proof {
        assert(d.text().subrange(q as int, q + w@.len()) =~= w@);
    }
    true
}

/// The handle that classifying the value after whitespace at `p` gives, and
/// where it leaves the cursor: where it stood for an object, array, string or
/// number, whose handle reads the whitespace and the value itself, or past a
/// literal.
pub open spec fn probe(b: Seq<u8>, p: int) -> (ValueDeserializer, int) {
    let q = skip_ws(b, p);
    let c = b[q];
    if c == 0x7B {
        (ValueDeserializer::Object(ObjectDeserializer { past_first: false }), p)
    } else if c == 0x5B {
        (ValueDeserializer::Array(ArrayDeserializer { past_first: false }), p)
    } else if c == 0x22 {
        (ValueDeserializer::String(StringDeserializer), p)
    } else if c == 0x74 {
        (ValueDeserializer::Boolean(true), q + 4)
    } else if c == 0x66 {
        (ValueDeserializer::Boolean(false), q + 5)
    } else if c == 0x6E {
        (ValueDeserializer::Null, q + 4)
    } else {
        (ValueDeserializer::Number(NumberDeserializer), p)
    }
}

/// The value after whitespace at `p` starts as a value can: with `{`, `[`,
/// `"`, `-` or a digit, or as a whole `true`, `false` or `null`.
pub open spec fn probe_ok(b: Seq<u8>, p: int) -> bool {
    let q = skip_ws(b, p);
    &&& 0 <= p <= q < b.len()
    &&& {
        let c = b[q];
        ||| c == 0x7B || c == 0x5B || c == 0x22 || c == 0x2D || (0x30 <= c <= 0x39)
        ||| c == 0x74 && matches_at(b, q, word_true())
        ||| c == 0x66 && matches_at(b, q, word_false())
        ||| c == 0x6E && matches_at(b, q, word_null())
    }
}

/// Reads `true`, `false` or `null` at the cursor, whose first byte is `c`.
fn read_literal<'s>(d: &mut Deserializer<'s>, q: usize, c: u8) -> (r: Option<ValueDeserializer>)
    requires
        old(d).wf(),
        q == skip_ws(old(d).text(), old(d).pos()),
        byte_at(old(d).text(), q as int) == Some(c),
        c == 0x74 || c == 0x66 || c == 0x6E,
    ensures
        final(d).wf(),
        final(d).text() == old(d).text(),
        match r {
            Some(value) => {
                &&& value.end(old(d).text(), final(d).pos()) == value_end(old(d).text(), q as int)
                &&& q <= final(d).pos()
                &&& (value, final(d).pos() as int) == probe(old(d).text(), q as int)
            },
            None => value_end(old(d).text(), q as int) is None && final(d).pos() == old(d).pos(),
        },
{
    let ghost b = d.text();
    proof {
        lemma_skip_ws_twice(b, old(d).pos());
        if q > d.pos() {
            lemma_stop_boundary(b, q as int);
        }
    }
    let (word, value) = if c == 0x74 {
        (word_bytes_true(), ValueDeserializer::Boolean(true))
    } else if c == 0x66 {
        (word_bytes_false(), ValueDeserializer::Boolean(false))
    } else {
        (word_bytes_null(), ValueDeserializer::Null)
    };
    if matches_word(d, q, &word) {
        proof {
            lemma_stop_boundary(b, q + word@.len());
        }
        d.advance_to(q + word.len());
        Some(value)
    } else {
        None
    }
}

impl ValueDeserializer {
    /// Where the value ends when the cursor stands at `p`, if it is well
    /// formed from there on.
    pub open spec fn end(&self, b: Seq<u8>, p: int) -> Option<int> {
        match self {
            ValueDeserializer::Object(o) => o.end(b, p),
            ValueDeserializer::Array(a) => a.end(b, p),
            ValueDeserializer::String(_) => string_handle_end(b, p),
            ValueDeserializer::Number(_) => number_end(b, p),
            _ => Some(p),
        }
    }

    /// Skips whitespace and classifies the value after it; it succeeds
    /// exactly when `probe_ok` holds. Booleans and null
    /// are read; other values are left for their handles, whose `end` is
    /// where the value ends.
    #[verifier::rlimit(30)]
    pub fn new<'s>(d: &mut Deserializer<'s>) -> (r: Result<ValueDeserializer, SyntaxError>)
        requires
            old(d).wf(),
        ensures
            final(d).wf(),
            final(d).text() == old(d).text(),
            old(d).pos() <= final(d).pos(),
            match r {
                Ok(value) => value.end(old(d).text(), final(d).pos()) == value_end(
                    old(d).text(),
                    old(d).pos(),
                ) && (value, final(d).pos() as int) == probe(old(d).text(), old(d).pos())
                    && probe_ok(old(d).text(), old(d).pos()),
                Err(e) => {
                    &&& !probe_ok(old(d).text(), old(d).pos())
                    &&& value_end(old(d).text(), old(d).pos()) is None
                    &&& final(d).pos() == old(d).pos()
                    &&& is_unexpected(
                        e,
                        old(d).text(),
                        skip_ws(old(d).text(), old(d).pos()),
                        old(d).pos(),
                        value_start_chars(),
                    )
                },
            },
    {
        let ghost b = d.text();
        let p = d.consumed();
        let q = d.whitespace_end(p);
        proof {
            lemma_skip_ws_twice(b, p as int);
            if q > p {
                lemma_stop_boundary(b, q as int);
            }
        }
        match d.byte(q) {
            Some(c) => {
                if c == 0x7B {
                    return Ok(ValueDeserializer::Object(ObjectDeserializer { past_first: false }));
                } else if c == 0x5B {
                    return Ok(ValueDeserializer::Array(ArrayDeserializer { past_first: false }));
                } else if c == 0x22 {
                    return Ok(ValueDeserializer::String(StringDeserializer));
                } else if c == 0x2D || (0x30 <= c && c <= 0x39) {
                    return Ok(ValueDeserializer::Number(NumberDeserializer));
                } else if c == 0x74 || c == 0x66 || c == 0x6E {
                    match read_literal(d, q, c) {
                        Some(value) => return Ok(value),
                        None => {},
                    }
                }
            },
            None => {},
        }
        Err(d.unexpected(q, p, expect_value_start()))
    }

    /// The kind of the value.
    pub fn kind(&self) -> (r: JSONType)
        ensures
            r == self.spec_kind(),
    {
        match self {
            ValueDeserializer::Object(_) => JSONType::Object,
            ValueDeserializer::Array(_) => JSONType::Array,
            ValueDeserializer::String(_) => JSONType::String,
            ValueDeserializer::Number(_) => JSONType::Number,
            ValueDeserializer::Boolean(_) => JSONType::Boolean,
            ValueDeserializer::Null => JSONType::Null,
        }
    }

    pub open spec fn spec_kind(&self) -> JSONType {
        match self {
            ValueDeserializer::Object(_) => JSONType::Object,
            ValueDeserializer::Array(_) => JSONType::Array,
            ValueDeserializer::String(_) => JSONType::String,
            ValueDeserializer::Number(_) => JSONType::Number,
            ValueDeserializer::Boolean(_) => JSONType::Boolean,
            ValueDeserializer::Null => JSONType::Null,
        }
    }

    /// Reads the value to its end and drops it.
    pub fn skip<'s>(self, d: &mut Deserializer<'s>) -> (r: Result<(), SyntaxError>)
        requires
            old(d).wf(),
        ensures
            final(d).wf(),
            final(d).text() == old(d).text(),
            r is Ok <==> self.end(old(d).text(), old(d).pos()) is Some,
            r is Ok ==> final(d).pos() == self.end(old(d).text(), old(d).pos())->0,
        decreases old(d).text().len() - old(d).pos(), 1int,
    {
        match self {
            ValueDeserializer::Object(o) => o.close(d),
            ValueDeserializer::Array(a) => a.close(d),
            ValueDeserializer::String(s) => match s.accept(d) {
                Ok(_) => Ok(()),
                Err(e) => Err(e),
            },
            ValueDeserializer::Number(n) => match n.accept(d) {
                Ok(_) => Ok(()),
                Err(e) => Err(e),
            },
            _ => Ok(()),
        }
    }
}

impl ObjectDeserializer {
    /// Reads the rest of the object, its closing `}` included.
    #[verifier::rlimit(30)]
    pub fn close<'s>(self, d: &mut Deserializer<'s>) -> (r: Result<(), SyntaxError>)
        requires
            old(d).wf(),
        ensures
            final(d).wf(),
            final(d).text() == old(d).text(),
            r is Ok <==> self.end(old(d).text(), old(d).pos()) is Some,
            r is Ok ==> final(d).pos() == self.end(old(d).text(), old(d).pos())->0,
            r is Ok ==> final(d).pos() > 0 && old(d).text()[final(d).pos() - 1] == 0x7D,
        decreases old(d).text().len() - old(d).pos(), 0int,
    {
        let ghost b = d.text();
        let ghost origin = d.pos();
        let ghost goal = self.end(b, origin);
        let mut object = self;
        loop
            invariant
                d.wf(),
                d.text() == b,
                b == old(d).text(),
                origin == old(d).pos(),
                goal == self.end(b, origin),
                origin <= d.pos(),
                object.end(b, d.pos()) == goal,
            decreases b.len() - d.pos(),
        {
            match object.next_entry(d) {
                Err(e) => return Err(e),
                Ok(None) => {
                    let q = d.whitespace_end(d.consumed());
                    proof {
                        lemma_stop_boundary(b, q as int);
                        lemma_stop_boundary(b, q + 1);
                    }
                    d.advance_to(q + 1);
                    return Ok(());
                },
                Ok(Some(item)) => {
                    let ghost at = d.pos();
                    match item.skip(d) {
                        Err(e) => return Err(e),
                        Ok(()) => {},
                    }
                    proof {
                        crate::grammar::lemma_member_forward(b, at);
                    }
                },
            }
        }
    }
}

impl ArrayDeserializer {
    /// Reads the rest of the array, its closing `]` included.
    #[verifier::rlimit(30)]
    pub fn close<'s>(self, d: &mut Deserializer<'s>) -> (r: Result<(), SyntaxError>)
        requires
            old(d).wf(),
        ensures
            final(d).wf(),
            final(d).text() == old(d).text(),
            r is Ok <==> self.end(old(d).text(), old(d).pos()) is Some,
            r is Ok ==> final(d).pos() == self.end(old(d).text(), old(d).pos())->0,
            r is Ok ==> final(d).pos() > 0 && old(d).text()[final(d).pos() - 1] == 0x5D,
        decreases old(d).text().len() - old(d).pos(), 0int,
    {
        let ghost b = d.text();
        let ghost origin = d.pos();
        let ghost goal = self.end(b, origin);
        let mut array = self;
        loop
            invariant
                d.wf(),
                d.text() == b,
                b == old(d).text(),
                origin == old(d).pos(),
                goal == self.end(b, origin),
                origin <= d.pos(),
                array.end(b, d.pos()) == goal,
            decreases b.len() - d.pos(),
        {
            match array.next_entry(d) {
                Err(e) => return Err(e),
                Ok(None) => {
                    let q = d.whitespace_end(d.consumed());
                    proof {
                        lemma_stop_boundary(b, q as int);
                        lemma_stop_boundary(b, q + 1);
                    }
                    d.advance_to(q + 1);
                    return Ok(());
                },
                Ok(Some(item)) => {
                    match item.skip(d) {
                        Err(e) => return Err(e),
                        Ok(()) => {},
                    }
                },
            }
        }
    }
}

} // verus!
