//! The JSON grammar over the bytes of the input, as spec functions: where a
//! value that starts at a given offset ends, if it is well formed.
use vstd::prelude::*;
use vstd::utf8::*;
use crate::error::SyntaxError;

verus! {

broadcast use vstd::seq::group_seq_axioms;

/// JSON's whitespace: space, tab, line feed, carriage return.
pub open spec fn is_ws(c: u8) -> bool {
    c == 0x20 || c == 0x09 || c == 0x0A || c == 0x0D
}

pub open spec fn is_digit(c: u8) -> bool {
    0x30 <= c <= 0x39
}

pub open spec fn byte_at(b: Seq<u8>, p: int) -> Option<u8> {
    if 0 <= p < b.len() {
        Some(b[p])
    } else {
        None
    }
}

/// The character that starts at byte offset `p`, or `None` at the end.
pub open spec fn char_at(b: Seq<u8>, p: int) -> Option<char> {
    if 0 <= p < b.len() {
        Some(decode_first_scalar(b.subrange(p, b.len() as int)) as char)
    } else {
        None
    }
}

/// The first offset at or after `p` that does not hold whitespace.
pub open spec fn skip_ws(b: Seq<u8>, p: int) -> int
    decreases b.len() - p,
{
    if 0 <= p < b.len() && is_ws(b[p]) {
        skip_ws(b, p + 1)
    } else {
        p
    }
}

/// The first offset at or after `p` that does not hold a decimal digit.
pub open spec fn digits_end(b: Seq<u8>, p: int) -> int
    decreases b.len() - p,
{
    if 0 <= p < b.len() && is_digit(b[p]) {
        digits_end(b, p + 1)
    } else {
        p
    }
}

/// The letters that may follow a backslash in a string.
pub open spec fn is_escape_letter(c: u8) -> bool {
    c == 0x22 || c == 0x5C || c == 0x2F || c == 0x62 || c == 0x66 || c == 0x6E || c == 0x72
        || c == 0x74
}

/// The byte that an escape letter stands for.
pub open spec fn escaped(c: u8) -> u8 {
    if c == 0x62 {
        0x08
    } else if c == 0x66 {
        0x0C
    } else if c == 0x6E {
        0x0A
    } else if c == 0x72 {
        0x0D
    } else if c == 0x74 {
        0x09
    } else {
        c
    }
}

/// Scans the body of a string whose opening quote stands just before `p`:
/// the offset just past the closing quote, or the error that stops it.
pub open spec fn string_scan(b: Seq<u8>, p: int) -> Result<int, SyntaxError>
    decreases b.len() - p,
{
    if !(0 <= p < b.len()) {
        Err(SyntaxError::StringUnterminated)
    } else if b[p] == 0x22 {
        Ok(p + 1)
    } else if b[p] == 0x5C {
        if p + 1 >= b.len() {
            Err(SyntaxError::StringUnterminated)
        } else if is_escape_letter(b[p + 1]) {
            string_scan(b, p + 2)
        } else {
            Err(SyntaxError::StringUnexpectedEscape(char_at(b, p + 1)->0))
        }
    } else if b[p] < 0x20 {
        Err(SyntaxError::StringUnexpectedControlChar)
    } else {
        string_scan(b, p + 1)
    }
}

/// The UTF-8 bytes of the text that a string body starting at `p` stands for,
/// with its escapes replaced.
pub open spec fn string_text(b: Seq<u8>, p: int) -> Seq<u8>
    decreases b.len() - p,
{
    if !(0 <= p < b.len()) || b[p] == 0x22 {
        Seq::empty()
    } else if b[p] == 0x5C {
        if p + 1 >= b.len() {
            Seq::empty()
        } else {
            seq![escaped(b[p + 1])] + string_text(b, p + 2)
        }
    } else {
        seq![b[p]] + string_text(b, p + 1)
    }
}

/// Whether a string body starting at `p` holds a backslash before its closing
/// quote.
pub open spec fn has_escape(b: Seq<u8>, p: int) -> bool
    decreases b.len() - p,
{
    if !(0 <= p < b.len()) || b[p] == 0x22 {
        false
    } else if b[p] == 0x5C {
        true
    } else {
        has_escape(b, p + 1)
    }
}

pub open spec fn string_end(b: Seq<u8>, p: int) -> Option<int> {
    match string_scan(b, p) {
        Ok(e) => Some(e),
        Err(_) => None,
    }
}

/// Where the parts of a number lie, as offsets into the input.
pub struct NumberShape {
    pub start: int,
    pub negative: bool,
    pub base: (int, int),
    pub fraction: Option<(int, int)>,
    pub exponent: Option<(int, int)>,
    pub exponent_negative: bool,
    pub end: int,
}

pub open spec fn digit_chars() -> Seq<char> {
    seq!['0', '1', '2', '3', '4', '5', '6', '7', '8', '9']
}

/// The end of the integer part of a number that starts at `s` (after its
/// sign): a lone `0`, or a digit from 1 to 9 and the digits after it.
pub open spec fn base_end(b: Seq<u8>, s: int) -> Option<int> {
    if byte_at(b, s) == Some(0x30u8) {
        Some(s + 1)
    } else if 0 <= s < b.len() && 0x31 <= b[s] <= 0x39 {
        Some(digits_end(b, s + 1))
    } else {
        None
    }
}

/// The digits after a `.` at `be`, if there is one there.
pub open spec fn fraction_scan(b: Seq<u8>, be: int) -> Result<Option<(int, int)>, (int, Seq<char>)> {
    if byte_at(b, be) == Some(0x2Eu8) {
        if 0 <= be + 1 < b.len() && is_digit(b[be + 1]) {
            Ok(Some((be + 1, digits_end(b, be + 2))))
        } else {
            Err((be + 1, digit_chars()))
        }
    } else {
        Ok(None)
    }
}

/// The digits of an exponent whose `e` or `E` stands at `fe`, if one does,
/// and whether its sign is `-`.
pub open spec fn exponent_scan(b: Seq<u8>, fe: int) -> Result<Option<(int, int, bool)>, (int, Seq<char>)> {
    if byte_at(b, fe) == Some(0x65u8) || byte_at(b, fe) == Some(0x45u8) {
        let t = fe + 1;
        if !(0 <= t < b.len()) {
            Err((t, seq!['+', '-'] + digit_chars()))
        } else {
            let u = if b[t] == 0x2B || b[t] == 0x2D {
                t + 1
            } else {
                t
            };
            if u < b.len() && is_digit(b[u]) {
                Ok(Some((u, digits_end(b, u + 1), b[t] == 0x2D)))
            } else {
                Err((u, digit_chars()))
            }
        }
    } else {
        Ok(None)
    }
}

/// Scans a number that starts after whitespace at `p`: its shape, or the
/// offset and the expected characters of the first byte that breaks it.
pub open spec fn number_scan(b: Seq<u8>, p: int) -> Result<NumberShape, (int, Seq<char>)> {
    let q = skip_ws(b, p);
    if !(0 <= q < b.len()) {
        Err((q, seq!['-'] + digit_chars()))
    } else {
        let negative = b[q] == 0x2D;
        let s = if negative { q + 1 } else { q };
        match base_end(b, s) {
            None => Err((s, digit_chars())),
            Some(be) => match fraction_scan(b, be) {
                Err(e) => Err(e),
                Ok(fraction) => {
                    let fe = match fraction {
                        Some(f) => f.1,
                        None => be,
                    };
                    match exponent_scan(b, fe) {
                        Err(e) => Err(e),
                        Ok(exponent) => Ok(
                            NumberShape {
                                start: q,
                                negative,
                                base: (s, be),
                                fraction,
                                exponent: match exponent {
                                    Some(x) => Some((x.0, x.1)),
                                    None => None,
                                },
                                exponent_negative: match exponent {
                                    Some(x) => x.2,
                                    None => false,
                                },
                                end: match exponent {
                                    Some(x) => x.1,
                                    None => fe,
                                },
                            },
                        ),
                    }
                },
            },
        }
    }
}

pub open spec fn number_end(b: Seq<u8>, p: int) -> Option<int> {
    match number_scan(b, p) {
        Ok(shape) => Some(shape.end),
        Err(_) => None,
    }
}

/// Whether the bytes from `q` on begin with `w`.
pub open spec fn matches_at(b: Seq<u8>, q: int, w: Seq<u8>) -> bool {
    0 <= q && q + w.len() <= b.len() && b.subrange(q, q + w.len()) == w
}

pub open spec fn word_true() -> Seq<u8> {
    seq![0x74u8, 0x72u8, 0x75u8, 0x65u8]
}

pub open spec fn word_false() -> Seq<u8> {
    seq![0x66u8, 0x61u8, 0x6Cu8, 0x73u8, 0x65u8]
}

pub open spec fn word_null() -> Seq<u8> {
    seq![0x6Eu8, 0x75u8, 0x6Cu8, 0x6Cu8]
}

/// The characters that may begin a value.
pub open spec fn value_start_chars() -> Seq<char> {
    seq!['{', '[', '"'] + digit_chars() + seq!['f', 't', 'n']
}

/// The offset just past the value that starts after whitespace at `p`, if
/// that value is well formed.
pub open spec fn value_end(b: Seq<u8>, p: int) -> Option<int>
    decreases b.len() - p, 0int,
{
    let q = skip_ws(b, p);
    if !(0 <= p <= q < b.len()) {
        None
    } else {
        let c = b[q];
        if c == 0x7B {
            object_first(b, q + 1)
        } else if c == 0x5B {
            array_first(b, q + 1)
        } else if c == 0x22 {
            string_end(b, q + 1)
        } else if c == 0x2D || is_digit(c) {
            number_end(b, q)
        } else if c == 0x74 {
            if matches_at(b, q, word_true()) {
                Some(q + 4)
            } else {
                None
            }
        } else if c == 0x66 {
            if matches_at(b, q, word_false()) {
                Some(q + 5)
            } else {
                None
            }
        } else if c == 0x6E {
            if matches_at(b, q, word_null()) {
                Some(q + 4)
            } else {
                None
            }
        } else {
            None
        }
    }
}

/// The rest of an object whose `{` stands just before `p`.
pub open spec fn object_first(b: Seq<u8>, p: int) -> Option<int>
    decreases b.len() - p, 2int,
{
    let q = skip_ws(b, p);
    if !(0 <= p <= q <= b.len()) {
        None
    } else if byte_at(b, q) == Some(0x7Du8) {
        Some(q + 1)
    } else {
        member_then_next(b, p)
    }
}

/// The rest of an object after one of its members, from `p` on.
pub open spec fn object_next(b: Seq<u8>, p: int) -> Option<int>
    decreases b.len() - p, 0int,
{
    let q = skip_ws(b, p);
    if !(0 <= p <= q <= b.len()) {
        None
    } else if byte_at(b, q) == Some(0x7Du8) {
        Some(q + 1)
    } else if byte_at(b, q) == Some(0x2Cu8) {
        member_then_next(b, q + 1)
    } else {
        None
    }
}

/// A member starting at `p` (after whitespace) and the rest of its object.
pub open spec fn member_then_next(b: Seq<u8>, p: int) -> Option<int>
    decreases b.len() - p, 1int,
{
    if !(0 <= p <= b.len()) {
        None
    } else {
        match member_end(b, p) {
            Some(m) => if p < m <= b.len() {
                object_next(b, m)
            } else {
                None
            },
            None => None,
        }
    }
}

/// The offset just past the value of the member `"key": value` that starts
/// after whitespace at `p`.
pub open spec fn member_end(b: Seq<u8>, p: int) -> Option<int>
    decreases b.len() - p, 0int,
{
    let q = skip_ws(b, p);
    if !(0 <= p <= q < b.len()) || b[q] != 0x22 {
        None
    } else {
        match string_end(b, q + 1) {
            Some(e) => {
                let c = skip_ws(b, e);
                if q < e <= c && byte_at(b, c) == Some(0x3Au8) {
                    value_end(b, c + 1)
                } else {
                    None
                }
            },
            None => None,
        }
    }
}

/// The rest of an array whose `[` stands just before `p`.
pub open spec fn array_first(b: Seq<u8>, p: int) -> Option<int>
    decreases b.len() - p, 2int,
{
    let q = skip_ws(b, p);
    if !(0 <= p <= q <= b.len()) {
        None
    } else if byte_at(b, q) == Some(0x5Du8) {
        Some(q + 1)
    } else {
        element_then_next(b, p)
    }
}

/// The rest of an array after one of its elements, from `p` on.
pub open spec fn array_next(b: Seq<u8>, p: int) -> Option<int>
    decreases b.len() - p, 0int,
{
    let q = skip_ws(b, p);
    if !(0 <= p <= q <= b.len()) {
        None
    } else if byte_at(b, q) == Some(0x5Du8) {
        Some(q + 1)
    } else if byte_at(b, q) == Some(0x2Cu8) {
        element_then_next(b, q + 1)
    } else {
        None
    }
}

/// An element starting at `p` (after whitespace) and the rest of its array.
pub open spec fn element_then_next(b: Seq<u8>, p: int) -> Option<int>
    decreases b.len() - p, 1int,
{
    if !(0 <= p <= b.len()) {
        None
    } else {
        match value_end(b, p) {
            Some(e) => if p < e <= b.len() {
                array_next(b, e)
            } else {
                None
            },
            None => None,
        }
    }
}

/// `skip_ws` moves forward and stops inside the input, on a byte that is not
/// whitespace.
pub broadcast proof fn lemma_skip_ws(b: Seq<u8>, p: int)
    requires
        0 <= p <= b.len(),
    ensures
        p <= #[trigger] skip_ws(b, p) <= b.len(),
        skip_ws(b, p) < b.len() ==> !is_ws(b[skip_ws(b, p)]),
        forall|i: int| p <= i < skip_ws(b, p) ==> is_ws(#[trigger] b[i]),
    decreases b.len() - p,
{
    if p < b.len() && is_ws(b[p]) {
        lemma_skip_ws(b, p + 1);
    }
}

/// `digits_end` moves forward over digits only.
pub broadcast proof fn lemma_digits_end(b: Seq<u8>, p: int)
    requires
        0 <= p <= b.len(),
    ensures
        p <= #[trigger] digits_end(b, p) <= b.len(),
        digits_end(b, p) < b.len() ==> !is_digit(b[digits_end(b, p)]),
        forall|i: int| p <= i < digits_end(b, p) ==> is_digit(#[trigger] b[i]),
    decreases b.len() - p,
{
    if p < b.len() && is_digit(b[p]) {
        lemma_digits_end(b, p + 1);
    }
}

/// Skipping whitespace twice is skipping it once.
pub proof fn lemma_skip_ws_twice(b: Seq<u8>, p: int)
    requires
        0 <= p <= b.len(),
    ensures
        skip_ws(b, skip_ws(b, p)) == skip_ws(b, p),
{
    lemma_skip_ws(b, p);
}

/// A string body that scans ends past where it starts.
pub proof fn lemma_string_forward(b: Seq<u8>, p: int)
    requires
        string_scan(b, p) is Ok,
    ensures
        p < string_scan(b, p)->Ok_0 <= b.len(),
    decreases b.len() - p,
{
    if 0 <= p < b.len() && b[p] != 0x22 {
        if b[p] == 0x5C {
            lemma_string_forward(b, p + 2);
        } else {
            lemma_string_forward(b, p + 1);
        }
    }
}

/// A well-formed number ends past where it starts.
pub proof fn lemma_number_forward(b: Seq<u8>, p: int)
    requires
        0 <= p <= b.len(),
        number_scan(b, p) is Ok,
    ensures
        p <= skip_ws(b, p) < number_scan(b, p)->Ok_0.end <= b.len(),
        number_scan(b, p)->Ok_0.start == skip_ws(b, p),
{
    lemma_skip_ws(b, p);
    let q = skip_ws(b, p);
    let s = if b[q] == 0x2D { q + 1 } else { q };
    lemma_digits_end(b, s + 1);
    let be = base_end(b, s)->0;
    if fraction_scan(b, be)->Ok_0 is Some {
        lemma_digits_end(b, be + 2);
    }
    let fe = match fraction_scan(b, be)->Ok_0 {
        Some(f) => f.1,
        None => be,
    };
    if exponent_scan(b, fe)->Ok_0 is Some {
        let x = exponent_scan(b, fe)->Ok_0->0;
        lemma_digits_end(b, x.0 + 1);
    }
}

/// A well-formed value ends past where it starts, inside the input.
pub proof fn lemma_value_forward(b: Seq<u8>, p: int)
    requires
        value_end(b, p) is Some,
    ensures
        p < value_end(b, p)->0 <= b.len(),
{
    let q = skip_ws(b, p);
    lemma_skip_ws(b, p);
    let c = b[q];
    if c == 0x7B {
        lemma_object_first_forward(b, q + 1);
    } else if c == 0x5B {
        lemma_array_first_forward(b, q + 1);
    } else if c == 0x22 {
        lemma_string_forward(b, q + 1);
    } else if c == 0x2D || is_digit(c) {
        lemma_number_forward(b, q);
    }
}

pub proof fn lemma_object_first_forward(b: Seq<u8>, p: int)
    requires
        object_first(b, p) is Some,
    ensures
        p < object_first(b, p)->0 <= b.len(),
{
    lemma_skip_ws(b, p);
    if byte_at(b, skip_ws(b, p)) != Some(0x7Du8) {
        lemma_member_then_next_forward(b, p);
    }
}

pub proof fn lemma_object_next_forward(b: Seq<u8>, p: int)
    requires
        object_next(b, p) is Some,
    ensures
        p < object_next(b, p)->0 <= b.len(),
    decreases b.len() - p, 0int,
{
    lemma_skip_ws(b, p);
    let q = skip_ws(b, p);
    if byte_at(b, q) != Some(0x7Du8) {
        lemma_member_then_next_forward(b, q + 1);
    }
}

pub proof fn lemma_member_then_next_forward(b: Seq<u8>, p: int)
    requires
        member_then_next(b, p) is Some,
    ensures
        p < member_then_next(b, p)->0 <= b.len(),
    decreases b.len() - p, 1int,
{
    let m = member_end(b, p)->0;
    lemma_object_next_forward(b, m);
}

pub proof fn lemma_array_first_forward(b: Seq<u8>, p: int)
    requires
        array_first(b, p) is Some,
    ensures
        p < array_first(b, p)->0 <= b.len(),
{
    lemma_skip_ws(b, p);
    if byte_at(b, skip_ws(b, p)) != Some(0x5Du8) {
        lemma_element_then_next_forward(b, p);
    }
}

pub proof fn lemma_array_next_forward(b: Seq<u8>, p: int)
    requires
        array_next(b, p) is Some,
    ensures
        p < array_next(b, p)->0 <= b.len(),
    decreases b.len() - p, 0int,
{
    lemma_skip_ws(b, p);
    let q = skip_ws(b, p);
    if byte_at(b, q) != Some(0x5Du8) {
        lemma_element_then_next_forward(b, q + 1);
    }
}

pub proof fn lemma_element_then_next_forward(b: Seq<u8>, p: int)
    requires
        element_then_next(b, p) is Some,
    ensures
        p < element_then_next(b, p)->0 <= b.len(),
    decreases b.len() - p, 1int,
{
    let e = value_end(b, p)->0;
    lemma_array_next_forward(b, e);
}

/// Whitespace before a value, or before a member, changes nothing.
pub proof fn lemma_leading_ws(b: Seq<u8>, p: int)
    requires
        0 <= p <= b.len(),
    ensures
        value_end(b, p) == value_end(b, skip_ws(b, p)),
        member_end(b, p) == member_end(b, skip_ws(b, p)),
        element_then_next(b, p) == element_then_next(b, skip_ws(b, p)),
        member_then_next(b, p) == member_then_next(b, skip_ws(b, p)),
{
    lemma_skip_ws(b, p);
    lemma_skip_ws_twice(b, p);
    let q = skip_ws(b, p);
    assert(value_end(b, p) == value_end(b, q));
    if value_end(b, p) is Some {
        lemma_value_forward(b, q);
    }
    if member_end(b, p) is Some {
        lemma_skip_ws(b, q + 1);
        let e = string_end(b, q + 1)->0;
        lemma_string_forward(b, q + 1);
        lemma_skip_ws(b, e);
        lemma_value_forward(b, skip_ws(b, e) + 1);
    }
}

/// A well-formed member ends past where it starts, inside the input.
pub proof fn lemma_member_forward(b: Seq<u8>, p: int)
    requires
        member_end(b, p) is Some,
    ensures
        p < member_end(b, p)->0 <= b.len(),
{
    let q = skip_ws(b, p);
    let e = string_end(b, q + 1)->0;
    lemma_value_forward(b, skip_ws(b, e) + 1);
}

/// The rest of an object, when well formed, ends with its `}`.
pub proof fn lemma_object_first_closes(b: Seq<u8>, p: int)
    requires
        object_first(b, p) is Some,
    ensures
        0 < object_first(b, p)->0 <= b.len(),
        b[object_first(b, p)->0 - 1] == 0x7D,
{
    if byte_at(b, skip_ws(b, p)) != Some(0x7Du8) {
        lemma_member_then_next_closes(b, p);
    }
}

pub proof fn lemma_object_next_closes(b: Seq<u8>, p: int)
    requires
        object_next(b, p) is Some,
    ensures
        0 < object_next(b, p)->0 <= b.len(),
        b[object_next(b, p)->0 - 1] == 0x7D,
    decreases b.len() - p, 0int,
{
    let q = skip_ws(b, p);
    if byte_at(b, q) != Some(0x7Du8) {
        lemma_member_then_next_closes(b, q + 1);
    }
}

pub proof fn lemma_member_then_next_closes(b: Seq<u8>, p: int)
    requires
        member_then_next(b, p) is Some,
    ensures
        0 < member_then_next(b, p)->0 <= b.len(),
        b[member_then_next(b, p)->0 - 1] == 0x7D,
    decreases b.len() - p, 1int,
{
    lemma_object_next_closes(b, member_end(b, p)->0);
}

/// The rest of an array, when well formed, ends with its `]`.
pub proof fn lemma_array_first_closes(b: Seq<u8>, p: int)
    requires
        array_first(b, p) is Some,
    ensures
        0 < array_first(b, p)->0 <= b.len(),
        b[array_first(b, p)->0 - 1] == 0x5D,
{
    if byte_at(b, skip_ws(b, p)) != Some(0x5Du8) {
        lemma_element_then_next_closes(b, p);
    }
}

pub proof fn lemma_array_next_closes(b: Seq<u8>, p: int)
    requires
        array_next(b, p) is Some,
    ensures
        0 < array_next(b, p)->0 <= b.len(),
        b[array_next(b, p)->0 - 1] == 0x5D,
    decreases b.len() - p, 0int,
{
    let q = skip_ws(b, p);
    if byte_at(b, q) != Some(0x5Du8) {
        lemma_element_then_next_closes(b, q + 1);
    }
}

pub proof fn lemma_element_then_next_closes(b: Seq<u8>, p: int)
    requires
        element_then_next(b, p) is Some,
    ensures
        0 < element_then_next(b, p)->0 <= b.len(),
        b[element_then_next(b, p)->0 - 1] == 0x5D,
    decreases b.len() - p, 1int,
{
    lemma_array_next_closes(b, value_end(b, p)->0);
}

} // verus!
