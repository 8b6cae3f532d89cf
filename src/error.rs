//! Errors of the reader, and the names of JSON's kinds and of the integer
//! types that diagnostics speak of.
use vstd::prelude::*;

verus! {

/// An error that stops reading: the input is not JSON.
#[derive(Clone, Debug, PartialEq, Eq)]
pub enum SyntaxError {
    /// A character (or the end, as `None`) stood where one of `expected`
    /// was needed; `location` is its byte offset.
    Unexpected {
        unexpected: Option<char>,
        expected: Vec<char>,
        end_expected: bool,
        location: usize,
    },
    StringUnterminated,
    StringUnexpectedControlChar,
    StringUnexpectedEscape(char),
    NumberIncomplete,
    NumberExpectedDigit,
}

impl SyntaxError {
    /// The byte offset of an `Unexpected` error, and 0 for the others.
    pub fn location(&self) -> (r: usize)
        ensures
            r == match self {
                SyntaxError::Unexpected { location, .. } => *location,
                _ => 0,
            },
    {
        match self {
            SyntaxError::Unexpected { location, .. } => *location,
            _ => 0,
        }
    }
}

/// The offset just past the character at `q`, or `q` at the end.
pub open spec fn after_char(b: Seq<u8>, q: int) -> int {
    if 0 <= q < b.len() {
        q + vstd::utf8::length_of_first_scalar(b.subrange(q, b.len() as int))
    } else {
        q
    }
}

/// `e` is the error for the character (or end) at offset `at` of `b`, where
/// one of `expected` was needed, reported at offset `location`.
pub open spec fn is_unexpected(
    e: SyntaxError,
    b: Seq<u8>,
    at: int,
    location: int,
    expected: Seq<char>,
) -> bool {
    match e {
        SyntaxError::Unexpected { unexpected, expected: found_expected, end_expected, location: l } => {
            &&& unexpected == crate::grammar::char_at(b, at)
            &&& found_expected@ == expected
            &&& !end_expected
            &&& l == location
        },
        _ => false,
    }
}

/// `e` is the error for the character (or end) at offset `at`, reported
/// just past that character: where the reader stands once it has read it.
pub open spec fn is_unexpected_after(e: SyntaxError, b: Seq<u8>, at: int, expected: Seq<char>) -> bool {
    is_unexpected(e, b, at, after_char(b, at), expected)
}

broadcast use vstd::array::group_array_axioms;

pub(crate) fn expect_chars_1(a: char) -> (r: Vec<char>)
    ensures
        r@ == seq![a],
{
    let r = vec![a];
    assert(r@ =~= seq![a]);
    r
}

/// The ten decimal digits, in order.
pub(crate) fn expect_digits() -> (r: Vec<char>)
    ensures
        r@ == crate::grammar::digit_chars(),
{
    let r = vec!['0', '1', '2', '3', '4', '5', '6', '7', '8', '9'];
    assert(r@ =~= crate::grammar::digit_chars());
    r
}

/// `lead`, then the ten decimal digits.
pub(crate) fn expect_sign_or_digit(lead: char) -> (r: Vec<char>)
    ensures
        r@ == seq![lead] + crate::grammar::digit_chars(),
{
    let r = vec![lead, '0', '1', '2', '3', '4', '5', '6', '7', '8', '9'];
    assert(r@ =~= seq![lead] + crate::grammar::digit_chars());
    r
}

/// A sign of either kind, then the ten decimal digits.
pub(crate) fn expect_exponent_start() -> (r: Vec<char>)
    ensures
        r@ == seq!['+', '-'] + crate::grammar::digit_chars(),
{
    let r = vec!['+', '-', '0', '1', '2', '3', '4', '5', '6', '7', '8', '9'];
    assert(r@ =~= seq!['+', '-'] + crate::grammar::digit_chars());
    r
}

pub(crate) fn expect_chars_2(a: char, c: char) -> (r: Vec<char>)
    ensures
        r@ == seq![a, c],
{
    let r = vec![a, c];
    assert(r@ =~= seq![a, c]);
    r
}

/// The characters that may begin a value.
pub(crate) fn expect_value_start() -> (r: Vec<char>)
    ensures
        r@ == crate::grammar::value_start_chars(),
{
    let r = vec!['{', '[', '"', '0', '1', '2', '3', '4', '5', '6', '7', '8', '9', 'f', 't', 'n'];
    assert(r@ =~= crate::grammar::value_start_chars());
    r
}

/// The kinds of JSON value.
#[derive(Clone, Copy, Debug, PartialEq, Eq, Hash)]
pub enum JSONType {
    /// Any object.
    Object,
    /// Any array.
    Array,
    /// Any string.
    String,
    /// Any number.
    Number,
    /// Any boolean.
    Boolean,
    /// Null.
    Null,
}

impl JSONType {
    pub open spec fn spec_noun(self) -> Seq<char> {
        match self {
            JSONType::Object => "object"@,
            JSONType::Array => "array"@,
            JSONType::String => "string"@,
            JSONType::Number => "number"@,
            JSONType::Boolean => "boolean"@,
            JSONType::Null => "null"@,
        }
    }

    pub open spec fn spec_mention(self) -> Seq<char> {
        match self {
            JSONType::Object => "an object"@,
            JSONType::Array => "an array"@,
            JSONType::String => "a string"@,
            JSONType::Number => "a number"@,
            JSONType::Boolean => "a boolean"@,
            JSONType::Null => "null"@,
        }
    }

    /// The kind's name: "object", "array", ...
    pub fn noun(self) -> (r: &'static str)
        ensures
            r@ == self.spec_noun(),
    {
        match self {
            JSONType::Object => "object",
            JSONType::Array => "array",
            JSONType::String => "string",
            JSONType::Number => "number",
            JSONType::Boolean => "boolean",
            JSONType::Null => "null",
        }
    }

    /// The kind's name with its article: "an object", "a string", ...
    pub fn mention_by_noun(self) -> (r: &'static str)
        ensures
            r@ == self.spec_mention(),
    {
        match self {
            JSONType::Object => "an object",
            JSONType::Array => "an array",
            JSONType::String => "a string",
            JSONType::Number => "a number",
            JSONType::Boolean => "a boolean",
            JSONType::Null => "null",
        }
    }
}

} // verus!
