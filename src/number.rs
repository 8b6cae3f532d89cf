//! Reading a JSON number into a token that keeps the text of its parts.
use vstd::prelude::*;
use vstd::string::*;
use vstd::utf8::*;
use std::ops::Range;
use crate::cursor::{lemma_stop_boundary, Deserializer};
use crate::error::{
    expect_digits, expect_exponent_start, expect_sign_or_digit, is_unexpected_after, SyntaxError,
};
use crate::grammar::{
    base_end, digit_chars, digits_end, exponent_scan, fraction_scan, is_digit, lemma_digits_end,
    lemma_skip_ws, number_scan, skip_ws, NumberShape,
};
use crate::text::lemma_str_decodes;

verus! {

broadcast use vstd::seq::group_seq_axioms, lemma_skip_ws, lemma_digits_end;

/// A number as it stands in the input: its text, and where in that text its
/// integer part, fraction digits and exponent digits lie (signs, `.` and
/// `e` left out).
#[derive(Debug, PartialEq, Eq)]
pub struct Number<'s> {
    pub source: &'s str,
    pub base: Range<usize>,
    pub base_positive: bool,
    pub fraction: Option<Range<usize>>,
    pub exponent: Option<Range<usize>>,
    pub exponent_positive: bool,
}

/// `r` is a non-empty run of digits inside `s`.
pub open spec fn digit_run(s: Seq<u8>, r: Range<usize>) -> bool {
    &&& r.start < r.end <= s.len()
    &&& forall|i: int| r.start <= i < r.end ==> is_digit(#[trigger] s[i])
}

/// The range `(from, to)` of the input, taken relative to `start`.
pub open spec fn relative(r: Range<usize>, range: (int, int), start: int) -> bool {
    r.start == range.0 - start && r.end == range.1 - start
}

impl<'s> Number<'s> {
    pub open spec fn text(&self) -> Seq<u8> {
        self.source.spec_bytes()
    }

    /// The text is ASCII and every part is a non-empty run of digits in it.
    pub open spec fn wf(&self) -> bool {
        &&& forall|i: int| 0 <= i < self.text().len() ==> #[trigger] self.text()[i] < 0x80
        &&& digit_run(self.text(), self.base)
        &&& (self.fraction matches Some(f) ==> digit_run(self.text(), f))
        &&& (self.exponent matches Some(e) ==> digit_run(self.text(), e))
    }

    /// The token is the number that `shape` finds in `b`.
    pub open spec fn describes(&self, b: Seq<u8>, shape: NumberShape) -> bool {
        &&& self.text() == b.subrange(shape.start, shape.end)
        &&& relative(self.base, shape.base, shape.start)
        &&& self.base_positive == !shape.negative
        &&& match (self.fraction, shape.fraction) {
            (Some(f), Some(g)) => relative(f, g, shape.start),
            (None, None) => true,
            _ => false,
        }
        &&& match (self.exponent, shape.exponent) {
            (Some(f), Some(g)) => relative(f, g, shape.start),
            (None, None) => true,
            _ => false,
        }
        &&& self.exponent_positive == (shape.exponent is Some && !shape.exponent_negative)
    }

    /// The digits of the integer part.
    pub fn base(&self) -> (r: &'s str)
        requires
            self.wf(),
        ensures
            r.spec_bytes() == self.text().subrange(self.base.start as int, self.base.end as int),
    {
        ascii_slice(self.source, self.base.start, self.base.end)
    }

    /// The digits after the decimal point, if there is one.
    pub fn fraction(&self) -> (r: Option<&'s str>)
        requires
            self.wf(),
        ensures
            match (r, self.fraction) {
                (Some(s), Some(f)) => s.spec_bytes() == self.text().subrange(
                    f.start as int,
                    f.end as int,
                ),
                (None, None) => true,
                _ => false,
            },
    {
        match &self.fraction {
            Some(f) => Some(ascii_slice(self.source, f.start, f.end)),
            None => None,
        }
    }

    /// The digits of the exponent, if there is one.
    pub fn exponent(&self) -> (r: Option<&'s str>)
        requires
            self.wf(),
        ensures
            match (r, self.exponent) {
                (Some(s), Some(e)) => s.spec_bytes() == self.text().subrange(
                    e.start as int,
                    e.end as int,
                ),
                (None, None) => true,
                _ => false,
            },
    {
        match &self.exponent {
            Some(e) => Some(ascii_slice(self.source, e.start, e.end)),
            None => None,
        }
    }
}

/// A piece of an ASCII string.
fn ascii_slice<'a>(s: &'a str, from: usize, to: usize) -> (r: &'a str)
    requires
        from <= to <= s.spec_bytes().len(),
        forall|i: int| 0 <= i < s.spec_bytes().len() ==> #[trigger] s.spec_bytes()[i] < 0x80,
    ensures
        r.spec_bytes() == s.spec_bytes().subrange(from as int, to as int),
{
    let ghost b = s.spec_bytes();
    proof {
        lemma_str_decodes(s);
        lemma_stop_boundary(b, to as int);
    }
    let (head, _) = s.split_at(to);
    proof {
        assert(head.spec_bytes() =~= b.subrange(0, to as int));
        lemma_str_decodes(head);
        lemma_stop_boundary(head.spec_bytes(), from as int);
    }
    let (_, r) = head.split_at(from);
    proof {
        assert(r.spec_bytes() =~= b.subrange(from as int, to as int));
    }
    r
}

/// The first offset at or after `p` that does not hold a digit.
fn digits_from(d: &Deserializer, p: usize) -> (r: usize)
    requires
        d.wf(),
        p <= d.text().len(),
    ensures
        r == digits_end(d.text(), p as int),
{
    let n = d.len();
    let mut i = p;
    while i < n && is_digit_byte(d.byte(i).unwrap())
        invariant
            d.wf(),
            n == d.text().len(),
            p <= i <= n,
            digits_end(d.text(), i as int) == digits_end(d.text(), p as int),
        decreases n - i,
    {
        i = i + 1;
    }
    i
}

fn is_digit_byte(c: u8) -> (r: bool)
    ensures
        r == is_digit(c),
{
    0x30 <= c && c <= 0x39
}

/// The integer part of a number whose sign (if any) ends at `s`.
fn read_base(d: &Deserializer, s: usize) -> (r: Result<usize, SyntaxError>)
    requires
        d.wf(),
        s <= d.text().len(),
        is_char_boundary(d.text(), s as int),
    ensures
        match base_end(d.text(), s as int) {
            Some(be) => r == Ok::<usize, SyntaxError>(be as usize),
            None => r matches Err(e) && is_unexpected_after(e, d.text(), s as int, digit_chars()),
        },
{
    let n = d.len();
    let first = d.byte(s);
    if first == Some(0x30u8) {
        Ok(s + 1)
    } else if s < n && 0x31 <= first.unwrap() && first.unwrap() <= 0x39 {
        Ok(digits_from(d, s + 1))
    } else {
        Err(d.unexpected_after(s, expect_digits()))
    }
}

/// The fraction of a number whose integer part ends at `be`.
fn read_fraction(d: &Deserializer, be: usize) -> (r: Result<Option<Range<usize>>, SyntaxError>)
    requires
        d.wf(),
        0 < be <= d.text().len(),
        d.text()[be - 1] < 0x80,
    ensures
        match fraction_scan(d.text(), be as int) {
            Ok(Some(f)) => r matches Ok(Some(g)) && g.start == f.0 && g.end == f.1,
            Ok(None) => r matches Ok(None),
            Err((location, expected)) => r matches Err(e) && is_unexpected_after(
                e,
                d.text(),
                location,
                expected,
            ),
        },
{
    let n = d.len();
    if d.byte(be) == Some(0x2Eu8) {
        proof {
            lemma_stop_boundary(d.text(), be + 1);
        }
        if be + 1 < n && is_digit_byte(d.byte(be + 1).unwrap()) {
            let fe = digits_from(d, be + 2);
            Ok(Some(Range { start: be + 1, end: fe }))
        } else {
            Err(d.unexpected_after(be + 1, expect_digits()))
        }
    } else {
        Ok(None)
    }
}

/// The exponent of a number whose fraction (or integer part) ends at `fe`,
/// and whether its sign is `-`.
fn read_exponent(d: &Deserializer, fe: usize) -> (r: Result<
    Option<(Range<usize>, bool)>,
    SyntaxError,
>)
    requires
        d.wf(),
        0 < fe <= d.text().len(),
        d.text()[fe - 1] < 0x80,
    ensures
        match exponent_scan(d.text(), fe as int) {
            Ok(Some(x)) => r matches Ok(Some((range, minus))) && range.start == x.0 && range.end
                == x.1 && minus == x.2,
            Ok(None) => r matches Ok(None),
            Err((location, expected)) => r matches Err(e) && is_unexpected_after(
                e,
                d.text(),
                location,
                expected,
            ),
        },
{
    let n = d.len();
    if d.byte(fe) == Some(0x65u8) || d.byte(fe) == Some(0x45u8) {
        let t = fe + 1;
        proof {
            lemma_stop_boundary(d.text(), t as int);
        }
        if t >= n {
            return Err(d.unexpected_after(t, expect_exponent_start()));
        }
        let sign = d.byte(t).unwrap();
        let u = if sign == 0x2B || sign == 0x2D {
            t + 1
        } else {
            t
        };
        proof {
            lemma_stop_boundary(d.text(), u as int);
        }
        if u < n && is_digit_byte(d.byte(u).unwrap()) {
            let ee = digits_from(d, u + 1);
            Ok(Some((Range { start: u, end: ee }, sign == 0x2D)))
        } else {
            Err(d.unexpected_after(u, expect_digits()))
        }
    } else {
        Ok(None)
    }
}

spec fn exponent_start(shape: NumberShape) -> int {
    match shape.exponent {
        Some(x) => x.0,
        None => shape.end,
    }
}

/// Every byte of a well-formed number is ASCII.
proof fn lemma_number_ascii(b: Seq<u8>, p: int, shape: NumberShape)
    requires
        0 <= p <= b.len(),
        number_scan(b, p) == Ok::<NumberShape, (int, Seq<char>)>(shape),
    ensures
        0 <= shape.start < shape.end <= b.len(),
        shape.start == skip_ws(b, p),
        forall|i: int| shape.start <= i < shape.end ==> #[trigger] b[i] < 0x80,
{
    let q = shape.start;
    let s = shape.base.0;
    let be = shape.base.1;
    lemma_digits_end(b, s + 1);
    let fe = match shape.fraction {
        Some(f) => f.1,
        None => be,
    };
    if shape.fraction is Some {
        lemma_digits_end(b, be + 2);
    }
    if shape.exponent is Some {
        lemma_digits_end(b, exponent_start(shape) + 1);
    }
    assert forall|i: int| q <= i < shape.end implies #[trigger] b[i] < 0x80 by {
        if i < s {
        } else if i < be {
            assert(is_digit(b[i]));
        } else if i == be {
        } else if shape.fraction is Some && i < fe {
            assert(is_digit(b[i]));
        } else if i == fe {
        } else if i < exponent_start(shape) {
        } else {
            assert(is_digit(b[i]));
        }
    }
}

/// The token for the number that `number_scan` finds at `q`, from the parts
/// that the readers above returned.
#[verifier::rlimit(30)]
fn build_number<'s>(
    d: &Deserializer<'s>,
    q: usize,
    s: usize,
    be: usize,
    fraction: Option<Range<usize>>,
    exponent: Option<(Range<usize>, bool)>,
) -> (r: (Number<'s>, usize))
    requires
        d.wf(),
        q < d.text().len(),
        skip_ws(d.text(), q as int) == q,
        number_scan(d.text(), q as int) is Ok,
        ({
            let shape = number_scan(d.text(), q as int)->Ok_0;
            &&& shape.negative == (s == q + 1)
            &&& shape.base == (s as int, be as int)
            &&& match (fraction, shape.fraction) {
                (Some(f), Some(g)) => f.start == g.0 && f.end == g.1,
                (None, None) => true,
                _ => false,
            }
            &&& match (exponent, shape.exponent) {
                (Some((x, minus)), Some(g)) => x.start == g.0 && x.end == g.1 && minus
                    == shape.exponent_negative,
                (None, None) => true,
                _ => false,
            }
        }),
    ensures
        r.0.wf(),
        r.0.describes(d.text(), number_scan(d.text(), q as int)->Ok_0),
        r.1 == number_scan(d.text(), q as int)->Ok_0.end,
        is_char_boundary(d.text(), r.1 as int),
{
    let ghost b = d.text();
    let ghost shape = number_scan(b, q as int)->Ok_0;
    proof {
        lemma_number_ascii(b, q as int, shape);
        lemma_stop_boundary(b, shape.end);
        lemma_stop_boundary(b, q as int);
        lemma_digits_end(b, s + 1);
        if shape.fraction is Some {
            lemma_digits_end(b, be + 2);
        }
        if shape.exponent is Some {
            lemma_digits_end(b, exponent_start(shape) + 1);
        }
    }
    let fe = match &fraction {
        Some(f) => f.end,
        None => be,
    };
    let (end, exponent, exponent_positive) = match exponent {
        Some((e, minus)) => (e.end, Some(Range { start: e.start - q, end: e.end - q }), !minus),
        None => (fe, None, false),
    };
    let source = d.slice(q, end);
    let number = Number {
        source,
        base: Range { start: s - q, end: be - q },
        base_positive: s == q,
        fraction: match fraction {
            Some(f) => Some(Range { start: f.start - q, end: f.end - q }),
            None => None,
        },
        exponent,
        exponent_positive,
    };
    proof {
        let t = number.text();
        assert forall|i: int| 0 <= i < t.len() implies #[trigger] t[i] < 0x80 by {
            assert(t[i] == b[q + i]);
        }
        assert forall|i: int| number.base.start <= i < number.base.end implies is_digit(
            #[trigger] t[i],
        ) by {
            assert(t[i] == b[q + i]);
        }
        if number.fraction is Some {
            let f = number.fraction->0;
            assert forall|i: int| f.start <= i < f.end implies is_digit(#[trigger] t[i]) by {
                assert(t[i] == b[q + i]);
            }
        }
        if number.exponent is Some {
            let x = number.exponent->0;
            assert forall|i: int| x.start <= i < x.end implies is_digit(#[trigger] t[i]) by {
                assert(t[i] == b[q + i]);
            }
        }
    }
    (number, end)
}

/// Reads a number that starts after whitespace at the cursor.
///
/// On success the cursor stands just past the number and the token
/// describes it; otherwise the error names the first byte that breaks the
/// grammar and what was expected there.
#[verifier::rlimit(30)]
pub fn read_number<'s>(d: &mut Deserializer<'s>) -> (r: Result<Number<'s>, SyntaxError>)
    requires
        old(d).wf(),
    ensures
        final(d).wf(),
        final(d).text() == old(d).text(),
        match number_scan(old(d).text(), old(d).pos()) {
            Ok(shape) => r matches Ok(number) && number.wf() && number.describes(
                old(d).text(),
                shape,
            ) && final(d).pos() == shape.end,
            Err((location, expected)) => r matches Err(e) && is_unexpected_after(
                e,
                old(d).text(),
                location,
                expected,
            ),
        },
{
    let ghost b = d.text();
    d.skip_whitespace();
    let q = d.consumed();
    let n = d.len();
    proof {
        assert(number_scan(b, old(d).pos()) == number_scan(b, q as int));
    }
    if q >= n {
        return Err(d.unexpected_after(q, expect_sign_or_digit('-')));
    }
    let negative = d.byte(q) == Some(0x2Du8);
    let s = if negative {
        q + 1
    } else {
        q
    };
    proof {
        if negative {
            lemma_stop_boundary(b, s as int);
        }
    }
    let be = match read_base(d, s) {
        Ok(be) => be,
        Err(e) => return Err(e),
    };
    proof {
        lemma_digits_end(b, s + 1);
    }
    let fraction = match read_fraction(d, be) {
        Ok(f) => f,
        Err(e) => return Err(e),
    };
    let fe = match &fraction {
        Some(f) => f.end,
        None => be,
    };
    proof {
        if fraction is Some {
            lemma_digits_end(b, be + 2);
        }
    }
    let exponent = match read_exponent(d, fe) {
        Ok(x) => x,
        Err(e) => return Err(e),
    };
    let (number, end) = build_number(d, q, s, be, fraction, exponent);
    d.advance_to(end);
    Ok(number)
}

} // verus!
