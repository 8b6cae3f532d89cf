//! Mapping JSON values to Rust values. A mapping reads its value to the end
//! whatever it finds; what it cannot map it reports to the error context and
//! returns `Ok(None)`, and only a syntax error stops it.
use vstd::prelude::*;
use vstd::string::*;
use std::borrow::Cow;
use std::collections::HashMap;
use crate::context::{
    popped, pushed, fractional_message, missing_fields_message, overflow_message, reported,
    string_expected_borrowed_message, underflow_message, unexpected_type_message, unchanged,
    AssociatedNumeric, ErrorContext, KeyKind, NumericPrimitive,
};
use crate::cursor::Deserializer;
use crate::error::{JSONType, SyntaxError};
use crate::grammar::{
    byte_at, has_escape, lemma_member_forward, member_end, number_scan, skip_ws, string_text,
    value_end,
};
use crate::integer::{
    integer_of, lemma_describes_value, shape_integer, shape_is_whole, IntegerValue,
};
use crate::value::{colon_at, probe, ArrayDeserializer, ObjectDeserializer, ValueDeserializer};
use vstd::std_specs::hash::obeys_key_model;

verus! {

/// A type that JSON values can be mapped to.
pub trait Deserialize<'s, E: ErrorContext<'s>>: Sized {
    /// `result` is what mapping the well-formed value that `value` stands
    /// for, with the cursor at `p` in `b`, gives, and `after` is the error
    /// context after it, `before` the one before. A mapping that says nothing
    /// of its result keeps this default.
    open spec fn mapped(
        value: ValueDeserializer,
        b: Seq<u8>,
        p: int,
        result: Option<Self>,
        before: E,
        after: E,
    ) -> bool {
        true
    }

    /// Maps the value that `value` stands for, reading it to its end.
    ///
    /// It fails exactly when the value is not well formed, and otherwise
    /// leaves the cursor just past it. Every key it pushes on the context's
    /// path it pops again.
    fn deserialize(value: ValueDeserializer, d: &mut Deserializer<'s>, error_context: &mut E) -> (r:
        Result<Option<Self>, SyntaxError>)
        requires
            old(d).wf(),
        ensures
            final(d).wf(),
            final(d).text() == old(d).text(),
            r is Ok <==> value.end(old(d).text(), old(d).pos()) is Some,
            r is Ok ==> final(d).pos() == value.end(old(d).text(), old(d).pos())->0,
            final(error_context).records() == old(error_context).records(),
            old(error_context).records() ==> final(error_context).path() == old(error_context).path(),
            r matches Ok(o) ==> Self::mapped(
                value,
                old(d).text(),
                old(d).pos(),
                o,
                *old(error_context),
                *final(error_context),
            ),
    ;
}

/// Reports that `value` is not of the `expected` kind and reads it to its end.
pub fn reject<'s, E: ErrorContext<'s>>(
    value: ValueDeserializer,
    d: &mut Deserializer<'s>,
    error_context: &mut E,
    expected: JSONType,
) -> (r: Result<(), SyntaxError>)
    requires
        old(d).wf(),
    ensures
        final(d).wf(),
        final(d).text() == old(d).text(),
        r is Ok <==> value.end(old(d).text(), old(d).pos()) is Some,
        r is Ok ==> final(d).pos() == value.end(old(d).text(), old(d).pos())->0,
        reported(
            *old(error_context),
            *final(error_context),
            unexpected_type_message(value.spec_kind(), seq![expected]),
        ),
{
    let kinds = [expected];
    assert(kinds@ =~= seq![expected]);
    error_context.report_unexpected_type(value.kind(), kinds.as_slice());
    value.skip(d)
}

/// Maps a boolean to itself; any other value is reported.
pub fn deserialize_bool<'s, E: ErrorContext<'s>>(
    value: ValueDeserializer,
    d: &mut Deserializer<'s>,
    error_context: &mut E,
) -> (r: Result<Option<bool>, SyntaxError>)
    requires
        old(d).wf(),
    ensures
        final(d).wf(),
        final(d).text() == old(d).text(),
        r is Ok <==> value.end(old(d).text(), old(d).pos()) is Some,
        r is Ok ==> final(d).pos() == value.end(old(d).text(), old(d).pos())->0,
        value matches ValueDeserializer::Boolean(v) ==> r == Ok::<Option<bool>, SyntaxError>(
            Some(v),
        ) && *final(error_context) == *old(error_context),
        !(value is Boolean) ==> reported(
            *old(error_context),
            *final(error_context),
            unexpected_type_message(value.spec_kind(), seq![JSONType::Boolean]),
        ) && (r is Ok ==> r->Ok_0 is None),
{
    match value {
        ValueDeserializer::Boolean(b) => Ok(Some(b)),
        other => {
            reject(other, d, error_context, JSONType::Boolean)?;
            Ok(None)
        },
    }
}

impl<'s, E: ErrorContext<'s>> Deserialize<'s, E> for bool {
    open spec fn mapped(
        value: ValueDeserializer,
        b: Seq<u8>,
        p: int,
        result: Option<Self>,
        before: E,
        after: E,
    ) -> bool {
        match value {
            ValueDeserializer::Boolean(v) => result == Some(v) && after == before,
            _ => result is None && reported(before, after, unexpected_type_message(value.spec_kind(), seq![JSONType::Boolean])),
        }
    }

    fn deserialize(value: ValueDeserializer, d: &mut Deserializer<'s>, error_context: &mut E) -> (r:
        Result<Option<Self>, SyntaxError>) {
        deserialize_bool(value, d, error_context)
    }
}

/// What mapping to an optional value gives: null is `Some(None)`, and any
/// other value gives what mapping it to `T` gives, lifted.
pub open spec fn option_mapped<'s, T: Deserialize<'s, E>, E: ErrorContext<'s>>(
    value: ValueDeserializer,
    b: Seq<u8>,
    p: int,
    result: Option<Option<T>>,
    before: E,
    after: E,
) -> bool {
    match value {
        ValueDeserializer::Null => result == Some(None::<T>) && after == before,
        _ => match result {
            Some(Some(x)) => T::mapped(value, b, p, Some(x), before, after),
            Some(None) => false,
            None => T::mapped(value, b, p, None, before, after),
        },
    }
}

/// What mapping to a slice of the input gives: the text of a string without
/// escapes, and nothing for anything else.
pub open spec fn borrowed_mapped<'s, E: ErrorContext<'s>>(
    value: ValueDeserializer,
    b: Seq<u8>,
    p: int,
    result: Option<&'s str>,
    before: E,
    after: E,
) -> bool {
    match value {
        ValueDeserializer::String(_) => {
            let q = skip_ws(b, p);
            if has_escape(b, q + 1) {
                result is None && reported(before, after, string_expected_borrowed_message())
            } else {
                result matches Some(s) && unchanged(before, after) && vstd::utf8::encode_utf8(s@)
                    == string_text(b, q + 1)
            }
        },
        _ => result is None && reported(before, after, unexpected_type_message(value.spec_kind(), seq![JSONType::String])),
    }
}

/// Maps to an optional value: null is `Some(None)`, without a report;
/// any other value is mapped to `T`.
pub fn deserialize_option<'s, T: Deserialize<'s, E>, E: ErrorContext<'s>>(
    value: ValueDeserializer,
    d: &mut Deserializer<'s>,
    error_context: &mut E,
) -> (r: Result<Option<Option<T>>, SyntaxError>)
    requires
        old(d).wf(),
    ensures
        final(d).wf(),
        final(d).text() == old(d).text(),
        r is Ok <==> value.end(old(d).text(), old(d).pos()) is Some,
        r is Ok ==> final(d).pos() == value.end(old(d).text(), old(d).pos())->0,
        final(error_context).records() == old(error_context).records(),
        old(error_context).records() ==> final(error_context).path() == old(error_context).path(),
        value is Null ==> r == Ok::<Option<Option<T>>, SyntaxError>(Some(None)) && *final(error_context) == *old(error_context),
        r matches Ok(o) ==> option_mapped::<T, E>(
            value,
            old(d).text(),
            old(d).pos(),
            o,
            *old(error_context),
            *final(error_context),
        ),
{
    match value {
        ValueDeserializer::Null => Ok(Some(None)),
        other => match T::deserialize(other, d, error_context) {
            Ok(Some(t)) => Ok(Some(Some(t))),
            Ok(None) => Ok(None),
            Err(e) => Err(e),
        },
    }
}

impl<'s, T: Deserialize<'s, E>, E: ErrorContext<'s>> Deserialize<'s, E> for Option<T> {
    open spec fn mapped(
        value: ValueDeserializer,
        b: Seq<u8>,
        p: int,
        result: Option<Self>,
        before: E,
        after: E,
    ) -> bool {
        option_mapped::<T, E>(value, b, p, result, before, after)
    }

    fn deserialize(value: ValueDeserializer, d: &mut Deserializer<'s>, error_context: &mut E) -> (r:
        Result<Option<Self>, SyntaxError>) {
        deserialize_option(value, d, error_context)
    }
}

/// Maps a string to its text, borrowed from the input when it holds no
/// escape.
#[verifier::rlimit(30)]
pub fn deserialize_cow<'s, E: ErrorContext<'s>>(
    value: ValueDeserializer,
    d: &mut Deserializer<'s>,
    error_context: &mut E,
) -> (r: Result<Option<Cow<'s, str>>, SyntaxError>)
    requires
        old(d).wf(),
    ensures
        final(d).wf(),
        final(d).text() == old(d).text(),
        r is Ok <==> value.end(old(d).text(), old(d).pos()) is Some,
        r is Ok ==> final(d).pos() == value.end(old(d).text(), old(d).pos())->0,
        final(error_context).records() == old(error_context).records(),
        old(error_context).records() ==> final(error_context).path() == old(error_context).path(),
        value is String ==> unchanged(*old(error_context), *final(error_context)) && (r is Ok
            ==> r->Ok_0 is Some),
        value is String ==> (r matches Ok(Some(s)) ==> {
            let b = old(d).text();
            let q = crate::grammar::skip_ws(b, old(d).pos());
            &&& vstd::utf8::encode_utf8(s@) == crate::grammar::string_text(b, q + 1)
            &&& (s is Borrowed <==> !crate::grammar::has_escape(b, q + 1))
        }),
        !(value is String) ==> reported(
            *old(error_context),
            *final(error_context),
            unexpected_type_message(value.spec_kind(), seq![JSONType::String]),
        ) && (r is Ok ==> r->Ok_0 is None),
{
    match value {
        ValueDeserializer::String(s) => Ok(Some(s.accept(d)?)),
        other => {
            reject(other, d, error_context, JSONType::String)?;
            Ok(None)
        },
    }
}

impl<'s, E: ErrorContext<'s>> Deserialize<'s, E> for Cow<'s, str> {
    open spec fn mapped(
        value: ValueDeserializer,
        b: Seq<u8>,
        p: int,
        result: Option<Self>,
        before: E,
        after: E,
    ) -> bool {
        match value {
            ValueDeserializer::String(_) => result matches Some(s) && unchanged(before, after) && {
                let q = skip_ws(b, p);
                &&& vstd::utf8::encode_utf8(s@) == string_text(b, q + 1)
                &&& (s is Borrowed <==> !has_escape(b, q + 1))
            },
            _ => result is None && reported(before, after, unexpected_type_message(value.spec_kind(), seq![JSONType::String])),
        }
    }

    fn deserialize(value: ValueDeserializer, d: &mut Deserializer<'s>, error_context: &mut E) -> (r:
        Result<Option<Self>, SyntaxError>) {
        deserialize_cow(value, d, error_context)
    }
}

/// The text, as an owned string.
pub fn owned_text<'s>(text: Cow<'s, str>) -> (r: String)
    ensures
        r@ == text@,
{
    match text {
        Cow::Borrowed(s) => String::from_str(s),
        Cow::Owned(s) => s,
    }
}

/// An equal copy of the text, borrowing what it borrows.
pub fn copy_text<'s>(text: &Cow<'s, str>) -> (r: Cow<'s, str>)
    ensures
        r == *text,
{
    match text {
        Cow::Borrowed(s) => Cow::Borrowed(*s),
        Cow::Owned(s) => Cow::Owned(s.clone()),
    }
}

impl<'s, E: ErrorContext<'s>> Deserialize<'s, E> for String {
    open spec fn mapped(
        value: ValueDeserializer,
        b: Seq<u8>,
        p: int,
        result: Option<Self>,
        before: E,
        after: E,
    ) -> bool {
        match value {
            ValueDeserializer::String(_) => result matches Some(s) && unchanged(before, after)
                && vstd::utf8::encode_utf8(s@) == string_text(b, skip_ws(b, p) + 1),
            _ => result is None && reported(before, after, unexpected_type_message(value.spec_kind(), seq![JSONType::String])),
        }
    }

    fn deserialize(value: ValueDeserializer, d: &mut Deserializer<'s>, error_context: &mut E) -> (r:
        Result<Option<Self>, SyntaxError>) {
        match deserialize_cow(value, d, error_context)? {
            Some(text) => Ok(Some(owned_text(text))),
            None => Ok(None),
        }
    }
}

/// Maps a string to a slice of the input; a string with an escape cannot be
/// one, and is reported.
#[verifier::rlimit(30)]
pub fn deserialize_borrowed<'s, E: ErrorContext<'s>>(
    value: ValueDeserializer,
    d: &mut Deserializer<'s>,
    error_context: &mut E,
) -> (r: Result<Option<&'s str>, SyntaxError>)
    requires
        old(d).wf(),
    ensures
        final(d).wf(),
        final(d).text() == old(d).text(),
        r is Ok <==> value.end(old(d).text(), old(d).pos()) is Some,
        r is Ok ==> final(d).pos() == value.end(old(d).text(), old(d).pos())->0,
        final(error_context).records() == old(error_context).records(),
        old(error_context).records() ==> final(error_context).path() == old(error_context).path(),
        value is String ==> (r matches Ok(None) ==> reported(
            *old(error_context),
            *final(error_context),
            string_expected_borrowed_message(),
        )),
        value is String ==> (r matches Ok(Some(s)) ==> unchanged(
            *old(error_context),
            *final(error_context),
        ) && vstd::utf8::encode_utf8(s@) == old(d).text().subrange(
            crate::grammar::skip_ws(old(d).text(), old(d).pos()) + 1,
            final(d).pos() - 1,
        )),
        !(value is String) ==> reported(
            *old(error_context),
            *final(error_context),
            unexpected_type_message(value.spec_kind(), seq![JSONType::String]),
        ) && (r is Ok ==> r->Ok_0 is None),
        r matches Ok(o) ==> borrowed_mapped(
            value,
            old(d).text(),
            old(d).pos(),
            o,
            *old(error_context),
            *final(error_context),
        ),
{
    match value {
        ValueDeserializer::String(s) => match s.accept(d)? {
            Cow::Borrowed(text) => Ok(Some(text)),
            Cow::Owned(_) => {
                error_context.report_string_expected_borrowed();
                Ok(None)
            },
        },
        other => {
            reject(other, d, error_context, JSONType::String)?;
            Ok(None)
        },
    }
}

impl<'s, E: ErrorContext<'s>> Deserialize<'s, E> for &'s str {
    open spec fn mapped(
        value: ValueDeserializer,
        b: Seq<u8>,
        p: int,
        result: Option<Self>,
        before: E,
        after: E,
    ) -> bool {
        borrowed_mapped(value, b, p, result, before, after)
    }

    fn deserialize(value: ValueDeserializer, d: &mut Deserializer<'s>, error_context: &mut E) -> (r:
        Result<Option<Self>, SyntaxError>) {
        deserialize_borrowed(value, d, error_context)
    }
}

/// The items that mapping the rest of an array gives, with the handle `a`,
/// the cursor at `p`, `index` elements already read and the context going
/// from `before` to `after`: the elements that map, in order, each mapped
/// with its index pushed on the path.
pub open spec fn array_items<'s, T: Deserialize<'s, E>, E: ErrorContext<'s>>(
    a: ArrayDeserializer,
    b: Seq<u8>,
    p: int,
    items: Seq<T>,
    index: int,
    before: E,
    after: E,
) -> bool {
    if !a.past_first {
        let q = skip_ws(b, p);
        byte_at(b, q) == Some(0x5Bu8) && items_after_open::<T, E>(b, q + 1, items, index, before, after)
    } else {
        items_after_element::<T, E>(b, p, items, index, before, after)
    }
}

/// The items of an array whose `[` stands just before `p`.
pub open spec fn items_after_open<'s, T: Deserialize<'s, E>, E: ErrorContext<'s>>(
    b: Seq<u8>,
    p: int,
    items: Seq<T>,
    index: int,
    before: E,
    after: E,
) -> bool
    decreases b.len() - p, 1int,
{
    if !(0 <= p <= b.len()) {
        false
    } else if byte_at(b, skip_ws(b, p)) == Some(0x5Du8) {
        items.len() == 0 && after == before
    } else {
        items_from::<T, E>(b, p, items, index, before, after)
    }
}

/// The items of the rest of an array after one of its elements.
pub open spec fn items_after_element<'s, T: Deserialize<'s, E>, E: ErrorContext<'s>>(
    b: Seq<u8>,
    p: int,
    items: Seq<T>,
    index: int,
    before: E,
    after: E,
) -> bool
    decreases b.len() - p, 0int,
{
    let q = skip_ws(b, p);
    if !(0 <= p <= q <= b.len()) {
        false
    } else if byte_at(b, q) == Some(0x5Du8) {
        items.len() == 0 && after == before
    } else if byte_at(b, q) == Some(0x2Cu8) {
        items_from::<T, E>(b, q + 1, items, index, before, after)
    } else {
        false
    }
}

/// One element at `s` mapped under `index` on the path.
pub open spec fn element_mapped<'s, T: Deserialize<'s, E>, E: ErrorContext<'s>>(
    b: Seq<u8>,
    s: int,
    index: int,
    r: Option<T>,
    before: E,
    inner: E,
    inner_after: E,
    mid: E,
) -> bool {
    &&& pushed(before, inner, KeyKind::Array(index as usize))
    &&& T::mapped(probe(b, s).0, b, probe(b, s).1, r, inner, inner_after)
    &&& popped(inner_after, mid)
}

/// The items of the elements from the one that starts at `s` on: that
/// element's, if it maps, then the others'.
pub open spec fn items_from<'s, T: Deserialize<'s, E>, E: ErrorContext<'s>>(
    b: Seq<u8>,
    s: int,
    items: Seq<T>,
    index: int,
    before: E,
    after: E,
) -> bool
    decreases b.len() - s, 0int,
{
    if !(0 <= s <= b.len()) {
        false
    } else {
        match value_end(b, s) {
            Some(e) => s < e <= b.len() && exists|r: Option<T>, inner: E, inner_after: E, mid: E|
                {
                    &&& #[trigger] element_mapped::<T, E>(b, s, index, r, before, inner, inner_after, mid)
                    &&& match r {
                        Some(x) => items.len() > 0 && items[0] == x && items_after_element::<
                            T,
                            E,
                        >(b, e, items.drop_first(), index + 1, mid, after),
                        None => items_after_element::<T, E>(b, e, items, index + 1, mid, after),
                    }
                },
            None => false,
        }
    }
}

/// What mapping to a sequence gives: for an array, the items of its
/// elements; anything else is reported.
pub open spec fn vec_mapped<'s, T: Deserialize<'s, E>, E: ErrorContext<'s>>(
    value: ValueDeserializer,
    b: Seq<u8>,
    p: int,
    result: Option<Vec<T>>,
    before: E,
    after: E,
) -> bool {
    match value {
        ValueDeserializer::Array(a) => result matches Some(v) && array_items::<T, E>(
            a,
            b,
            p,
            v@,
            0,
            before,
            after,
        ),
        _ => result is None && reported(before, after, unexpected_type_message(value.spec_kind(), seq![JSONType::Array])),
    }
}

/// Reading one more element extends the items by what it maps to.
pub proof fn lemma_items_step<'s, T: Deserialize<'s, E>, E: ErrorContext<'s>>(
    before: ArrayDeserializer,
    b: Seq<u8>,
    at: int,
    got: Option<T>,
    e: int,
    rest: Seq<T>,
    index: int,
    context: E,
    inner: E,
    inner_after: E,
    mid: E,
    fin: E,
)
    requires
        0 <= at <= b.len(),
        ({
            let q = skip_ws(b, at);
            ||| !before.past_first && byte_at(b, q) == Some(0x5Bu8) && byte_at(
                b,
                skip_ws(b, q + 1),
            ) != Some(0x5Du8)
            ||| before.past_first && byte_at(b, q) == Some(0x2Cu8)
        }),
        element_mapped::<T, E>(b, skip_ws(b, at) + 1, index, got, context, inner, inner_after, mid),
        value_end(b, skip_ws(b, at) + 1) == Some(e),
        items_after_element::<T, E>(b, e, rest, index + 1, mid, fin),
    ensures
        array_items::<T, E>(
            before,
            b,
            at,
            match got {
                Some(x) => seq![x] + rest,
                None => rest,
            },
            index,
            context,
            fin,
        ),
{
    let q = skip_ws(b, at);
    crate::grammar::lemma_skip_ws(b, at);
    crate::grammar::lemma_value_forward(b, q + 1);
    let whole = match got {
        Some(x) => seq![x] + rest,
        None => rest,
    };
    if got is Some {
        assert(whole.drop_first() =~= rest);
    }
    assert(items_from::<T, E>(b, q + 1, whole, index, context, fin));
    if !before.past_first {
        assert(items_after_open::<T, E>(b, q + 1, whole, index, context, fin));
    } else {
        assert(items_after_element::<T, E>(b, at, whole, index, context, fin));
    }
}

/// An array whose closing `]` comes next has no more items.
pub proof fn lemma_items_done<'s, T: Deserialize<'s, E>, E: ErrorContext<'s>>(
    before: ArrayDeserializer,
    b: Seq<u8>,
    at: int,
    index: int,
    context: E,
)
    requires
        0 <= at <= b.len(),
        ({
            let q = skip_ws(b, at);
            ||| !before.past_first && byte_at(b, q) == Some(0x5Bu8) && byte_at(
                b,
                skip_ws(b, q + 1),
            ) == Some(0x5Du8)
            ||| before.past_first && byte_at(b, q) == Some(0x5Du8)
        }),
    ensures
        array_items::<T, E>(before, b, at, Seq::empty(), index, context, context),
{
    let q = skip_ws(b, at);
    crate::grammar::lemma_skip_ws(b, at);
    if !before.past_first {
        crate::grammar::lemma_skip_ws(b, q + 1);
        assert(items_after_open::<T, E>(b, q + 1, Seq::empty(), index, context, context));
    }
}

/// Maps an array to the elements that map to `T`, in order; an element
/// that does not is left out. Each element is mapped with its index (counting
/// every element) pushed on the context's path.
#[verifier::loop_isolation(false)]
#[verifier::rlimit(60)]
pub fn deserialize_vec<'s, T: Deserialize<'s, E>, E: ErrorContext<'s>>(
    value: ValueDeserializer,
    d: &mut Deserializer<'s>,
    error_context: &mut E,
) -> (r: Result<Option<Vec<T>>, SyntaxError>)
    requires
        old(d).wf(),
    ensures
        final(d).wf(),
        final(d).text() == old(d).text(),
        r is Ok <==> value.end(old(d).text(), old(d).pos()) is Some,
        r is Ok ==> final(d).pos() == value.end(old(d).text(), old(d).pos())->0,
        final(error_context).records() == old(error_context).records(),
        old(error_context).records() ==> final(error_context).path() == old(error_context).path(),
        r matches Ok(o) ==> vec_mapped::<T, E>(
            value,
            old(d).text(),
            old(d).pos(),
            o,
            *old(error_context),
            *final(error_context),
        ),
{
    let ghost b = d.text();
    let ghost origin = d.pos();
    let ghost goal = value.end(b, origin);
    let ghost context0 = *error_context;
    match value {
        ValueDeserializer::Array(mut array) => {
            let ghost start = array;
            let mut result: Vec<T> = Vec::new();
            let mut index: usize = 0;
            proof {
                assert forall|rest: Seq<T>, fin: E| array_items::<T, E>(array, b, d.pos(), rest, index as int, *error_context, fin) implies array_items::<T, E>(start, b, origin, result@ + rest, 0, context0, fin) by {
                    assert(result@ + rest =~= rest);
                }
            }
            loop
                invariant
                    d.wf(),
                    d.text() == b,
                    b == old(d).text(),
                    origin == old(d).pos(),
                    array.end(b, d.pos()) == goal,
                    index <= d.pos(),
                    error_context.records() == old(error_context).records(),
                    old(error_context).records() ==> error_context.path() == old(error_context).path(),
                    forall|rest: Seq<T>, fin: E| #[trigger] array_items::<T, E>(array, b, d.pos(), rest, index as int, *error_context, fin) ==> array_items::<T, E>(start, b, origin, result@ + rest, 0, context0, fin),
                decreases b.len() - d.pos(),
            {
                let ghost before = array;
                let ghost at = d.pos();
                let ghost context = *error_context;
                match array.next_entry(d)? {
                    None => {
                        proof {
                            lemma_items_done::<T, E>(before, b, at, index as int, context);
                            assert(result@ + Seq::<T>::empty() =~= result@);
                        }
                        array.close(d)?;
                        return Ok(Some(result));
                    },
                    Some(element) => {
                        let ghost q = skip_ws(b, at);
                        error_context.push_key(KeyKind::Array(index));
                        let ghost inner = *error_context;
                        let mapped = T::deserialize(element, d, error_context);
                        let ghost inner_after = *error_context;
                        error_context.pop_key();
                        proof {
                            if error_context.records() {
                                assert(error_context.path() =~= old(error_context).path());
                            }
                        }
                        let item = match mapped {
                            Err(e) => return Err(e),
                            Ok(item) => item,
                        };
                        let ghost got = item;
                        let ghost prefix = result@;
                        match item {
                            Some(t) => result.push(t),
                            None => {},
                        }
                        proof {
                            let e = d.pos();
                            let mid = *error_context;
                            assert(element_mapped::<T, E>(b, q + 1, index as int, got, context, inner, inner_after, mid));
                            assert forall|rest: Seq<T>, fin: E| array_items::<T, E>(array, b, d.pos(), rest, index + 1, *error_context, fin) implies array_items::<T, E>(start, b, origin, result@ + rest, 0, context0, fin) by {
                                let whole = match got {
                                    Some(x) => seq![x] + rest,
                                    None => rest,
                                };
                                lemma_items_step::<T, E>(before, b, at, got, e, rest, index as int, context, inner, inner_after, mid, fin);
                                assert(prefix + whole =~= result@ + rest);
                            }
                        }
                        index = index + 1;
                    },
                }
            }
        },
        other => {
            reject(other, d, error_context, JSONType::Array)?;
            Ok(None)
        },
    }
}

impl<'s, T: Deserialize<'s, E>, E: ErrorContext<'s>> Deserialize<'s, E> for Vec<T> {
    open spec fn mapped(
        value: ValueDeserializer,
        b: Seq<u8>,
        p: int,
        result: Option<Self>,
        before: E,
        after: E,
    ) -> bool {
        vec_mapped::<T, E>(value, b, p, result, before, after)
    }

    fn deserialize(value: ValueDeserializer, d: &mut Deserializer<'s>, error_context: &mut E) -> (r:
        Result<Option<Self>, SyntaxError>) {
        deserialize_vec(value, d, error_context)
    }
}

/// The bytes of the key of the member that starts after whitespace at `s`.
pub open spec fn member_key(b: Seq<u8>, s: int) -> Seq<u8> {
    string_text(b, skip_ws(b, s) + 1)
}

/// One member at `s` mapped under its key on the path.
pub open spec fn member_mapped<'s, V: Deserialize<'s, E>, E: ErrorContext<'s>>(
    b: Seq<u8>,
    s: int,
    key: KeyKind<'s>,
    r: Option<V>,
    before: E,
    inner: E,
    inner_after: E,
    mid: E,
) -> bool {
    &&& key matches KeyKind::Object(text) && vstd::utf8::encode_utf8(text@) == member_key(b, s)
    &&& pushed(before, inner, key)
    &&& V::mapped(
        probe(b, colon_at(b, s) + 1).0,
        b,
        probe(b, colon_at(b, s) + 1).1,
        r,
        inner,
        inner_after,
    )
    &&& popped(inner_after, mid)
}

/// The entries that mapping the rest of an object gives, keyed by the bytes
/// of their keys, starting from `acc`, with the handle `o`, the cursor at `p`
/// and the context going from `before` to `after`: each member whose value
/// maps is inserted, so of equal keys the last stays.
pub open spec fn object_entries<'s, V: Deserialize<'s, E>, E: ErrorContext<'s>>(
    o: ObjectDeserializer,
    b: Seq<u8>,
    p: int,
    acc: Map<Seq<u8>, V>,
    entries: Map<Seq<u8>, V>,
    before: E,
    after: E,
) -> bool {
    if !o.past_first {
        let q = skip_ws(b, p);
        byte_at(b, q) == Some(0x7Bu8) && entries_after_open::<V, E>(b, q + 1, acc, entries, before, after)
    } else {
        entries_after_member::<V, E>(b, p, acc, entries, before, after)
    }
}

/// The entries of an object whose `{` stands just before `p`.
pub open spec fn entries_after_open<'s, V: Deserialize<'s, E>, E: ErrorContext<'s>>(
    b: Seq<u8>,
    p: int,
    acc: Map<Seq<u8>, V>,
    entries: Map<Seq<u8>, V>,
    before: E,
    after: E,
) -> bool
    decreases b.len() - p, 1int,
{
    if !(0 <= p <= b.len()) {
        false
    } else if byte_at(b, skip_ws(b, p)) == Some(0x7Du8) {
        entries == acc && after == before
    } else {
        entries_from::<V, E>(b, p, acc, entries, before, after)
    }
}

/// The entries of the rest of an object after one of its members.
pub open spec fn entries_after_member<'s, V: Deserialize<'s, E>, E: ErrorContext<'s>>(
    b: Seq<u8>,
    p: int,
    acc: Map<Seq<u8>, V>,
    entries: Map<Seq<u8>, V>,
    before: E,
    after: E,
) -> bool
    decreases b.len() - p, 0int,
{
    let q = skip_ws(b, p);
    if !(0 <= p <= q <= b.len()) {
        false
    } else if byte_at(b, q) == Some(0x7Du8) {
        entries == acc && after == before
    } else if byte_at(b, q) == Some(0x2Cu8) {
        entries_from::<V, E>(b, q + 1, acc, entries, before, after)
    } else {
        false
    }
}

/// The entries of the members from the one that starts at `s` on.
pub open spec fn entries_from<'s, V: Deserialize<'s, E>, E: ErrorContext<'s>>(
    b: Seq<u8>,
    s: int,
    acc: Map<Seq<u8>, V>,
    entries: Map<Seq<u8>, V>,
    before: E,
    after: E,
) -> bool
    decreases b.len() - s, 0int,
{
    if !(0 <= s <= b.len()) {
        false
    } else {
        match member_end(b, s) {
            Some(m) => s < m <= b.len() && exists|key: KeyKind<'s>, r: Option<V>, inner: E, inner_after: E, mid: E|
                {
                    &&& #[trigger] member_mapped::<V, E>(b, s, key, r, before, inner, inner_after, mid)
                    &&& entries_after_member::<V, E>(
                        b,
                        m,
                        match r {
                            Some(x) => acc.insert(member_key(b, s), x),
                            None => acc,
                        },
                        entries,
                        mid,
                        after,
                    )
                },
            None => false,
        }
    }
}

/// Keys whose text is equal are equal, and hashing them obeys the model of
/// `HashMap`'s contents.
pub open spec fn text_keys_modelled() -> bool {
    &&& obeys_key_model::<String>()
    &&& forall|a: String, c: String| #![trigger a@, c@] a@ == c@ ==> a == c
}

/// The map holds exactly `entries`, each under a key whose bytes are the
/// entry's.
pub open spec fn keyed_by_text<V>(m: Map<String, V>, entries: Map<Seq<u8>, V>) -> bool {
    &&& forall|k: String| #[trigger] m.contains_key(k) ==> entries.contains_key(
        vstd::utf8::encode_utf8(k@),
    ) && entries[vstd::utf8::encode_utf8(k@)] == m[k]
    &&& forall|t: Seq<u8>| #[trigger] entries.contains_key(t) ==> exists|k: String|
        #[trigger] m.contains_key(k) && vstd::utf8::encode_utf8(k@) == t
}

/// What mapping to a map gives: for an object, its entries (as a `HashMap`
/// holds them when its keys obey the model); anything else is reported.
pub open spec fn map_mapped<'s, V: Deserialize<'s, E>, E: ErrorContext<'s>>(
    value: ValueDeserializer,
    b: Seq<u8>,
    p: int,
    result: Option<HashMap<String, V>>,
    before: E,
    after: E,
) -> bool {
    match value {
        ValueDeserializer::Object(o) => result matches Some(m) && exists|entries: Map<Seq<u8>, V>|
            {
                &&& #[trigger] object_entries::<V, E>(o, b, p, Map::empty(), entries, before, after)
                &&& text_keys_modelled() ==> keyed_by_text(m@, entries)
            },
        _ => result is None && reported(before, after, unexpected_type_message(value.spec_kind(), seq![JSONType::Object])),
    }
}

/// Inserting under a key and under its bytes keeps a map and its entries
/// matched.
pub proof fn lemma_keyed_insert<V>(m: Map<String, V>, entries: Map<Seq<u8>, V>, k: String, v: V)
    requires
        text_keys_modelled(),
        keyed_by_text(m, entries),
    ensures
        keyed_by_text(m.insert(k, v), entries.insert(vstd::utf8::encode_utf8(k@), v)),
{
    let m2 = m.insert(k, v);
    let t = vstd::utf8::encode_utf8(k@);
    let e2 = entries.insert(t, v);
    assert forall|k2: String| #[trigger] m2.contains_key(k2) implies e2.contains_key(
        vstd::utf8::encode_utf8(k2@),
    ) && e2[vstd::utf8::encode_utf8(k2@)] == m2[k2] by {
        if k2 != k && vstd::utf8::encode_utf8(k2@) == t {
            vstd::utf8::encode_utf8_decode_utf8(k2@);
            vstd::utf8::encode_utf8_decode_utf8(k@);
            assert(k2@ == k@);
        }
    }
    assert forall|t2: Seq<u8>| #[trigger] e2.contains_key(t2) implies exists|k2: String|
        #[trigger] m2.contains_key(k2) && vstd::utf8::encode_utf8(k2@) == t2 by {
        if t2 == t {
            assert(m2.contains_key(k));
        } else {
            let k2 = choose|k2: String| #[trigger] m.contains_key(k2) && vstd::utf8::encode_utf8(k2@) == t2;
            assert(m2.contains_key(k2));
        }
    }
}

/// Reading one more member extends the entries by what it maps to.
pub proof fn lemma_entries_step<'s, V: Deserialize<'s, E>, E: ErrorContext<'s>>(
    before: ObjectDeserializer,
    b: Seq<u8>,
    at: int,
    key: KeyKind<'s>,
    got: Option<V>,
    m: int,
    acc: Map<Seq<u8>, V>,
    entries: Map<Seq<u8>, V>,
    context: E,
    inner: E,
    inner_after: E,
    mid: E,
    fin: E,
)
    requires
        0 <= at <= b.len(),
        ({
            let q = skip_ws(b, at);
            ||| !before.past_first && byte_at(b, q) == Some(0x7Bu8) && byte_at(
                b,
                skip_ws(b, q + 1),
            ) != Some(0x7Du8)
            ||| before.past_first && byte_at(b, q) == Some(0x2Cu8)
        }),
        member_mapped::<V, E>(b, skip_ws(b, at) + 1, key, got, context, inner, inner_after, mid),
        member_end(b, skip_ws(b, at) + 1) == Some(m),
        entries_after_member::<V, E>(
            b,
            m,
            match got {
                Some(x) => acc.insert(member_key(b, skip_ws(b, at) + 1), x),
                None => acc,
            },
            entries,
            mid,
            fin,
        ),
    ensures
        object_entries::<V, E>(before, b, at, acc, entries, context, fin),
{
    let q = skip_ws(b, at);
    crate::grammar::lemma_skip_ws(b, at);
    lemma_member_forward(b, q + 1);
    assert(entries_from::<V, E>(b, q + 1, acc, entries, context, fin));
    if !before.past_first {
        assert(entries_after_open::<V, E>(b, q + 1, acc, entries, context, fin));
    } else {
        assert(entries_after_member::<V, E>(b, at, acc, entries, context, fin));
    }
}

/// An object whose closing `}` comes next has no more entries.
pub proof fn lemma_entries_done<'s, V: Deserialize<'s, E>, E: ErrorContext<'s>>(
    before: ObjectDeserializer,
    b: Seq<u8>,
    at: int,
    acc: Map<Seq<u8>, V>,
    context: E,
)
    requires
        0 <= at <= b.len(),
        ({
            let q = skip_ws(b, at);
            ||| !before.past_first && byte_at(b, q) == Some(0x7Bu8) && byte_at(
                b,
                skip_ws(b, q + 1),
            ) == Some(0x7Du8)
            ||| before.past_first && byte_at(b, q) == Some(0x7Du8)
        }),
    ensures
        object_entries::<V, E>(before, b, at, acc, acc, context, context),
{
    let q = skip_ws(b, at);
    crate::grammar::lemma_skip_ws(b, at);
    if !before.past_first {
        crate::grammar::lemma_skip_ws(b, q + 1);
        assert(entries_after_open::<V, E>(b, q + 1, acc, acc, context, context));
    }
}

/// Maps an object to its members whose values map to `V`, keyed by their
/// keys; a member whose value does not is left out, and of equal keys the
/// last stays. Each member's value is mapped with its key pushed on the
/// context's path.
#[verifier::loop_isolation(false)]
#[verifier::rlimit(60)]
pub fn deserialize_map<'s, V: Deserialize<'s, E>, E: ErrorContext<'s>>(
    value: ValueDeserializer,
    d: &mut Deserializer<'s>,
    error_context: &mut E,
) -> (r: Result<Option<HashMap<String, V>>, SyntaxError>)
    requires
        old(d).wf(),
    ensures
        final(d).wf(),
        final(d).text() == old(d).text(),
        r is Ok <==> value.end(old(d).text(), old(d).pos()) is Some,
        r is Ok ==> final(d).pos() == value.end(old(d).text(), old(d).pos())->0,
        final(error_context).records() == old(error_context).records(),
        old(error_context).records() ==> final(error_context).path() == old(error_context).path(),
        r matches Ok(o) ==> map_mapped::<V, E>(
            value,
            old(d).text(),
            old(d).pos(),
            o,
            *old(error_context),
            *final(error_context),
        ),
{
    let ghost b = d.text();
    let ghost origin = d.pos();
    let ghost goal = value.end(b, origin);
    let ghost context0 = *error_context;
    match value {
        ValueDeserializer::Object(mut object) => {
            let ghost start = object;
            let mut result: HashMap<String, V> = HashMap::new();
            let ghost mut acc: Map<Seq<u8>, V> = Map::empty();
            proof {
                assert(keyed_by_text(result@, acc));
            }
            loop
                invariant
                    d.wf(),
                    d.text() == b,
                    b == old(d).text(),
                    origin == old(d).pos(),
                    object.end(b, d.pos()) == goal,
                    error_context.records() == old(error_context).records(),
                    old(error_context).records() ==> error_context.path() == old(error_context).path(),
                    text_keys_modelled() ==> keyed_by_text(result@, acc),
                    forall|entries: Map<Seq<u8>, V>, fin: E| #[trigger] object_entries::<V, E>(object, b, d.pos(), acc, entries, *error_context, fin) ==> object_entries::<V, E>(start, b, origin, Map::empty(), entries, context0, fin),
                decreases b.len() - d.pos(),
            {
                let ghost before = object;
                let ghost at = d.pos();
                let ghost context = *error_context;
                match object.next_entry(d)? {
                    None => {
                        proof {
                            lemma_entries_done::<V, E>(before, b, at, acc, context);
                        }
                        object.close(d)?;
                        proof {
                            assert(object_entries::<V, E>(start, b, origin, Map::empty(), acc, context0, *error_context));
                        }
                        return Ok(Some(result));
                    },
                    Some(field) => {
                        let ghost q = skip_ws(b, at);
                        let (name, element) = field.accept(d)?;
                        let key = KeyKind::Object(copy_text(&name));
                        let ghost key_spec = key;
                        error_context.push_key(key);
                        let ghost inner = *error_context;
                        let mapped = V::deserialize(element, d, error_context);
                        let ghost inner_after = *error_context;
                        error_context.pop_key();
                        proof {
                            if error_context.records() {
                                assert(error_context.path() =~= old(error_context).path());
                            }
                        }
                        let item = match mapped {
                            Err(e) => return Err(e),
                            Ok(item) => item,
                        };
                        let ghost got = item;
                        let ghost acc_before = acc;
                        proof {
                            lemma_member_forward(b, q + 1);
                            acc = match got {
                                Some(x) => acc.insert(member_key(b, q + 1), x),
                                None => acc,
                            };
                        }
                        match item {
                            Some(v) => {
                                let k = owned_text(name);
                                proof {
                                    if text_keys_modelled() {
                                        lemma_keyed_insert(result@, acc_before, k, v);
                                    }
                                }
                                result.insert(k, v);
                            },
                            None => {},
                        }
                        proof {
                            let m = d.pos();
                            let mid = *error_context;
                            assert(member_mapped::<V, E>(b, q + 1, key_spec, got, context, inner, inner_after, mid));
                            assert forall|entries: Map<Seq<u8>, V>, fin: E| object_entries::<V, E>(object, b, d.pos(), acc, entries, *error_context, fin) implies object_entries::<V, E>(start, b, origin, Map::empty(), entries, context0, fin) by {
                                lemma_entries_step::<V, E>(before, b, at, key_spec, got, m, acc_before, entries, context, inner, inner_after, mid, fin);
                            }
                        }
                    },
                }
            }
        },
        other => {
            reject(other, d, error_context, JSONType::Object)?;
            Ok(None)
        },
    }
}

impl<'s, V: Deserialize<'s, E>, E: ErrorContext<'s>> Deserialize<'s, E> for HashMap<String, V> {
    open spec fn mapped(
        value: ValueDeserializer,
        b: Seq<u8>,
        p: int,
        result: Option<Self>,
        before: E,
        after: E,
    ) -> bool {
        map_mapped::<V, E>(value, b, p, result, before, after)
    }

    fn deserialize(value: ValueDeserializer, d: &mut Deserializer<'s>, error_context: &mut E) -> (r:
        Result<Option<Self>, SyntaxError>) {
        deserialize_map(value, d, error_context)
    }
}

/// Maps the first value of `input`, reads the whitespace after it, and
/// returns the number of bytes read with the result.
///
/// It fails exactly when that value is not well formed; otherwise the result
/// is what mapping the value to `T` gives, and when the input is one
/// well-formed value with only whitespace around it, all of it is read.
pub fn from_str_with<'s, T: Deserialize<'s, E>, E: ErrorContext<'s>>(
    input: &'s str,
    error_context: &mut E,
) -> (r: (Result<Option<T>, SyntaxError>, usize))
    ensures
        r.0 is Ok <==> value_end(input.spec_bytes(), 0) is Some,
        r.0 is Ok ==> r.1 == skip_ws(input.spec_bytes(), value_end(input.spec_bytes(), 0)->0),
        value_end(input.spec_bytes(), 0) matches Some(e) && skip_ws(input.spec_bytes(), e)
            == input.spec_bytes().len() ==> r.0 is Ok && r.1 == input.spec_bytes().len(),
        r.0 matches Ok(o) ==> T::mapped(
            probe(input.spec_bytes(), 0).0,
            input.spec_bytes(),
            probe(input.spec_bytes(), 0).1,
            o,
            *old(error_context),
            *final(error_context),
        ),
        final(error_context).records() == old(error_context).records(),
        old(error_context).records() ==> final(error_context).path() == old(error_context).path(),
{
    let mut d = Deserializer::new(input);
    let r = match ValueDeserializer::new(&mut d) {
        Ok(value) => T::deserialize(value, &mut d, error_context),
        Err(e) => Err(e),
    };
    if r.is_ok() {
        d.skip_whitespace();
    }
    (r, d.consumed())
}

/// Maps the first value of `input` with a fresh context, made by
/// `E::default()`, and returns that context with the result: what mapping
/// the value to `T` gives, with the reports made from the fresh context on
/// and every key pushed on its path popped again.
pub fn from_str_default<'s, T: Deserialize<'s, E>, E: ErrorContext<'s> + Default>(
    input: &'s str,
) -> (r: (Result<Option<T>, SyntaxError>, E))
    ensures
        r.0 is Ok <==> value_end(input.spec_bytes(), 0) is Some,
        exists|start: E|
            {
                &&& #[trigger] call_ensures(E::default, (), start)
                &&& r.1.records() == start.records()
                &&& start.records() ==> r.1.path() == start.path()
                &&& r.0 matches Ok(o) ==> T::mapped(
                    probe(input.spec_bytes(), 0).0,
                    input.spec_bytes(),
                    probe(input.spec_bytes(), 0).1,
                    o,
                    start,
                    r.1,
                )
            },
{
    let mut error_context = E::default();
    let ghost start = error_context;
    let (result, _) = from_str_with(input, &mut error_context);
    let ghost returned = error_context;
    let r = (result, error_context);
    assert(r.1 == returned);
    assert(call_ensures(E::default, (), start));
    r
}

/// What mapping a number at `p` to an integer between `min` and `max`
/// gives: the number, where it is a whole number in that range, with nothing
/// reported; otherwise nothing, with one report of why.
pub open spec fn integer_mapped_result<'s, E: ErrorContext<'s>>(
    value: ValueDeserializer,
    b: Seq<u8>,
    p: int,
    ty: NumericPrimitive,
    min: int,
    max: int,
    result: Option<int>,
    before: E,
    after: E,
) -> bool {
    match value {
        ValueDeserializer::Number(_) => {
            let shape = number_scan(b, p)->Ok_0;
            let n = shape_integer(b, shape);
            if !shape_is_whole(b, shape) {
                result is None && reported(before, after, fractional_message())
            } else if n > max {
                result is None && reported(before, after, overflow_message(ty))
            } else if n < min {
                result is None && reported(before, after, underflow_message(ty))
            } else {
                result == Some(n) && unchanged(before, after)
            }
        },
        _ => result is None && reported(before, after, unexpected_type_message(value.spec_kind(), seq![JSONType::Number])),
    }
}

/// What mapping a well-formed number at `p` to an integer between
/// `-max_negative` and `max_positive` does: a number that is not whole is
/// reported as fractional, one above the range as an overflow, one below it
/// as an underflow; otherwise it is the result, and nothing is reported.
pub open spec fn integer_mapped<'s, E: ErrorContext<'s>>(
    b: Seq<u8>,
    p: int,
    ty: NumericPrimitive,
    max_positive: int,
    max_negative: int,
    out: Option<(bool, u128)>,
    before: E,
    after: E,
) -> bool {
    let shape = number_scan(b, p)->Ok_0;
    if !shape_is_whole(b, shape) {
        out is None && reported(before, after, fractional_message())
    } else {
        let n = shape_integer(b, shape);
        if n > max_positive {
            out is None && reported(before, after, overflow_message(ty))
        } else if n < -max_negative {
            out is None && reported(before, after, underflow_message(ty))
        } else {
            &&& out matches Some((negative, magnitude))
            &&& n == if negative {
                -magnitude
            } else {
                magnitude as int
            }
            &&& unchanged(before, after)
        }
    }
}

/// Maps a number to an integer between `-max_negative` and `max_positive`,
/// as a sign and a magnitude, with the exact value of the number.
#[verifier::rlimit(30)]
pub fn deserialize_integer<'s, E: ErrorContext<'s>>(
    value: ValueDeserializer,
    d: &mut Deserializer<'s>,
    error_context: &mut E,
    ty: NumericPrimitive,
    max_positive: u128,
    max_negative: u128,
) -> (r: Result<Option<(bool, u128)>, SyntaxError>)
    requires
        old(d).wf(),
    ensures
        final(d).wf(),
        final(d).text() == old(d).text(),
        r is Ok <==> value.end(old(d).text(), old(d).pos()) is Some,
        r is Ok ==> final(d).pos() == value.end(old(d).text(), old(d).pos())->0,
        final(error_context).records() == old(error_context).records(),
        old(error_context).records() ==> final(error_context).path() == old(error_context).path(),
        r matches Ok(Some((negative, magnitude))) ==> if negative {
            magnitude <= max_negative
        } else {
            magnitude <= max_positive
        },
        value is Number ==> (r matches Ok(out) ==> integer_mapped(
            old(d).text(),
            old(d).pos(),
            ty,
            max_positive as int,
            max_negative as int,
            out,
            *old(error_context),
            *final(error_context),
        )),
        !(value is Number) ==> reported(
            *old(error_context),
            *final(error_context),
            unexpected_type_message(value.spec_kind(), seq![JSONType::Number]),
        ) && (r is Ok ==> r->Ok_0 is None),
{
    let ghost b = d.text();
    let ghost origin = d.pos();
    match value {
        ValueDeserializer::Number(handle) => {
            let number = handle.accept(d)?;
            proof {
                crate::grammar::lemma_number_forward(b, origin);
                lemma_describes_value(number, b, number_scan(b, origin)->Ok_0);
            }
            match integer_of(&number) {
                IntegerValue::Fractional => {
                    error_context.report_number_fractional();
                    Ok(None)
                },
                IntegerValue::Whole { negative, magnitude } => {
                    if negative {
                        if magnitude > max_negative {
                            error_context.report_number_underflow(ty);
                            Ok(None)
                        } else {
                            Ok(Some((true, magnitude)))
                        }
                    } else if magnitude > max_positive {
                        error_context.report_number_overflow(ty);
                        Ok(None)
                    } else {
                        Ok(Some((false, magnitude)))
                    }
                },
                IntegerValue::Huge { negative } => {
                    if negative {
                        error_context.report_number_underflow(ty);
                    } else {
                        error_context.report_number_overflow(ty);
                    }
                    Ok(None)
                },
            }
        },
        other => {
            reject(other, d, error_context, JSONType::Number)?;
            Ok(None)
        },
    }
}

/// `-m`, for a magnitude that a negative `i128` can have.
fn negated(m: u128) -> (r: i128)
    requires
        m <= 0x8000_0000_0000_0000_0000_0000_0000_0000u128,
    ensures
        r == -(m as int),
{
    if m == 0 {
        0
    } else {
        0i128 - ((m - 1) as i128) - 1
    }
}

/// The signed value of a sign and a magnitude that fit `i128`.
fn signed_value(out: (bool, u128)) -> (r: i128)
    requires
        out.0 ==> out.1 <= 0x8000_0000_0000_0000_0000_0000_0000_0000u128,
        !out.0 ==> out.1 <= 0x7FFF_FFFF_FFFF_FFFF_FFFF_FFFF_FFFF_FFFFu128,
    ensures
        r == if out.0 {
            -(out.1 as int)
        } else {
            out.1 as int
        },
{
    if out.0 {
        negated(out.1)
    } else {
        out.1 as i128
    }
}

impl<'s, E: ErrorContext<'s>> Deserialize<'s, E> for u8 {
    open spec fn mapped(
        value: ValueDeserializer,
        b: Seq<u8>,
        p: int,
        result: Option<Self>,
        before: E,
        after: E,
    ) -> bool {
        integer_mapped_result(
            value,
            b,
            p,
            NumericPrimitive::U8,
            0 as int,
            u8::MAX as int,
            match result {
                Some(x) => Some(x as int),
                None => None,
            },
            before,
            after,
        )
    }

    fn deserialize(value: ValueDeserializer, d: &mut Deserializer<'s>, error_context: &mut E) -> (r:
        Result<Option<Self>, SyntaxError>) {
        match deserialize_integer(value, d, error_context, NumericPrimitive::U8, 0xFF, 0)? {
            Some((_, m)) => Ok(Some(m as u8)),
            None => Ok(None),
        }
    }
}

impl<'s, E: ErrorContext<'s>> Deserialize<'s, E> for u16 {
    open spec fn mapped(
        value: ValueDeserializer,
        b: Seq<u8>,
        p: int,
        result: Option<Self>,
        before: E,
        after: E,
    ) -> bool {
        integer_mapped_result(
            value,
            b,
            p,
            NumericPrimitive::U16,
            0 as int,
            u16::MAX as int,
            match result {
                Some(x) => Some(x as int),
                None => None,
            },
            before,
            after,
        )
    }

    fn deserialize(value: ValueDeserializer, d: &mut Deserializer<'s>, error_context: &mut E) -> (r:
        Result<Option<Self>, SyntaxError>) {
        match deserialize_integer(value, d, error_context, NumericPrimitive::U16, 0xFFFF, 0)? {
            Some((_, m)) => Ok(Some(m as u16)),
            None => Ok(None),
        }
    }
}

impl<'s, E: ErrorContext<'s>> Deserialize<'s, E> for u32 {
    open spec fn mapped(
        value: ValueDeserializer,
        b: Seq<u8>,
        p: int,
        result: Option<Self>,
        before: E,
        after: E,
    ) -> bool {
        integer_mapped_result(
            value,
            b,
            p,
            NumericPrimitive::U32,
            0 as int,
            u32::MAX as int,
            match result {
                Some(x) => Some(x as int),
                None => None,
            },
            before,
            after,
        )
    }

    fn deserialize(value: ValueDeserializer, d: &mut Deserializer<'s>, error_context: &mut E) -> (r:
        Result<Option<Self>, SyntaxError>) {
        match deserialize_integer(value, d, error_context, NumericPrimitive::U32, 0xFFFF_FFFF, 0)? {
            Some((_, m)) => Ok(Some(m as u32)),
            None => Ok(None),
        }
    }
}

impl<'s, E: ErrorContext<'s>> Deserialize<'s, E> for u64 {
    open spec fn mapped(
        value: ValueDeserializer,
        b: Seq<u8>,
        p: int,
        result: Option<Self>,
        before: E,
        after: E,
    ) -> bool {
        integer_mapped_result(
            value,
            b,
            p,
            NumericPrimitive::U64,
            0 as int,
            u64::MAX as int,
            match result {
                Some(x) => Some(x as int),
                None => None,
            },
            before,
            after,
        )
    }

    fn deserialize(value: ValueDeserializer, d: &mut Deserializer<'s>, error_context: &mut E) -> (r:
        Result<Option<Self>, SyntaxError>) {
        match deserialize_integer(value, d, error_context, NumericPrimitive::U64, u64::MAX as u128, 0)? {
            Some((_, m)) => Ok(Some(m as u64)),
            None => Ok(None),
        }
    }
}

impl<'s, E: ErrorContext<'s>> Deserialize<'s, E> for u128 {
    open spec fn mapped(
        value: ValueDeserializer,
        b: Seq<u8>,
        p: int,
        result: Option<Self>,
        before: E,
        after: E,
    ) -> bool {
        integer_mapped_result(
            value,
            b,
            p,
            NumericPrimitive::U128,
            0 as int,
            u128::MAX as int,
            match result {
                Some(x) => Some(x as int),
                None => None,
            },
            before,
            after,
        )
    }

    fn deserialize(value: ValueDeserializer, d: &mut Deserializer<'s>, error_context: &mut E) -> (r:
        Result<Option<Self>, SyntaxError>) {
        match deserialize_integer(value, d, error_context, NumericPrimitive::U128, u128::MAX, 0)? {
            Some((_, m)) => Ok(Some(m)),
            None => Ok(None),
        }
    }
}

impl<'s, E: ErrorContext<'s>> Deserialize<'s, E> for usize {
    open spec fn mapped(
        value: ValueDeserializer,
        b: Seq<u8>,
        p: int,
        result: Option<Self>,
        before: E,
        after: E,
    ) -> bool {
        integer_mapped_result(
            value,
            b,
            p,
            NumericPrimitive::USize,
            0 as int,
            usize::MAX as int,
            match result {
                Some(x) => Some(x as int),
                None => None,
            },
            before,
            after,
        )
    }

    fn deserialize(value: ValueDeserializer, d: &mut Deserializer<'s>, error_context: &mut E) -> (r:
        Result<Option<Self>, SyntaxError>) {
        match deserialize_integer(value, d, error_context, NumericPrimitive::USize, usize::MAX as u128, 0)? {
            Some((_, m)) => Ok(Some(m as usize)),
            None => Ok(None),
        }
    }
}

impl<'s, E: ErrorContext<'s>> Deserialize<'s, E> for i8 {
    open spec fn mapped(
        value: ValueDeserializer,
        b: Seq<u8>,
        p: int,
        result: Option<Self>,
        before: E,
        after: E,
    ) -> bool {
        integer_mapped_result(
            value,
            b,
            p,
            NumericPrimitive::I8,
            i8::MIN as int,
            i8::MAX as int,
            match result {
                Some(x) => Some(x as int),
                None => None,
            },
            before,
            after,
        )
    }

    fn deserialize(value: ValueDeserializer, d: &mut Deserializer<'s>, error_context: &mut E) -> (r:
        Result<Option<Self>, SyntaxError>) {
        match deserialize_integer(value, d, error_context, NumericPrimitive::I8, 0x7F, 0x80)? {
            Some(out) => Ok(Some(signed_value(out) as i8)),
            None => Ok(None),
        }
    }
}

impl<'s, E: ErrorContext<'s>> Deserialize<'s, E> for i16 {
    open spec fn mapped(
        value: ValueDeserializer,
        b: Seq<u8>,
        p: int,
        result: Option<Self>,
        before: E,
        after: E,
    ) -> bool {
        integer_mapped_result(
            value,
            b,
            p,
            NumericPrimitive::I16,
            i16::MIN as int,
            i16::MAX as int,
            match result {
                Some(x) => Some(x as int),
                None => None,
            },
            before,
            after,
        )
    }

    fn deserialize(value: ValueDeserializer, d: &mut Deserializer<'s>, error_context: &mut E) -> (r:
        Result<Option<Self>, SyntaxError>) {
        match deserialize_integer(value, d, error_context, NumericPrimitive::I16, 0x7FFF, 0x8000)? {
            Some(out) => Ok(Some(signed_value(out) as i16)),
            None => Ok(None),
        }
    }
}

impl<'s, E: ErrorContext<'s>> Deserialize<'s, E> for i32 {
    open spec fn mapped(
        value: ValueDeserializer,
        b: Seq<u8>,
        p: int,
        result: Option<Self>,
        before: E,
        after: E,
    ) -> bool {
        integer_mapped_result(
            value,
            b,
            p,
            NumericPrimitive::I32,
            i32::MIN as int,
            i32::MAX as int,
            match result {
                Some(x) => Some(x as int),
                None => None,
            },
            before,
            after,
        )
    }

    fn deserialize(value: ValueDeserializer, d: &mut Deserializer<'s>, error_context: &mut E) -> (r:
        Result<Option<Self>, SyntaxError>) {
        match deserialize_integer(value, d, error_context, NumericPrimitive::I32, 0x7FFF_FFFF, 0x8000_0000)? {
            Some(out) => Ok(Some(signed_value(out) as i32)),
            None => Ok(None),
        }
    }
}

impl<'s, E: ErrorContext<'s>> Deserialize<'s, E> for i64 {
    open spec fn mapped(
        value: ValueDeserializer,
        b: Seq<u8>,
        p: int,
        result: Option<Self>,
        before: E,
        after: E,
    ) -> bool {
        integer_mapped_result(
            value,
            b,
            p,
            NumericPrimitive::I64,
            i64::MIN as int,
            i64::MAX as int,
            match result {
                Some(x) => Some(x as int),
                None => None,
            },
            before,
            after,
        )
    }

    fn deserialize(value: ValueDeserializer, d: &mut Deserializer<'s>, error_context: &mut E) -> (r:
        Result<Option<Self>, SyntaxError>) {
        match deserialize_integer(
            value,
            d,
            error_context,
            NumericPrimitive::I64,
            i64::MAX as u128,
            0x8000_0000_0000_0000,
        )? {
            Some(out) => Ok(Some(signed_value(out) as i64)),
            None => Ok(None),
        }
    }
}

impl<'s, E: ErrorContext<'s>> Deserialize<'s, E> for i128 {
    open spec fn mapped(
        value: ValueDeserializer,
        b: Seq<u8>,
        p: int,
        result: Option<Self>,
        before: E,
        after: E,
    ) -> bool {
        integer_mapped_result(
            value,
            b,
            p,
            NumericPrimitive::I128,
            i128::MIN as int,
            i128::MAX as int,
            match result {
                Some(x) => Some(x as int),
                None => None,
            },
            before,
            after,
        )
    }

    fn deserialize(value: ValueDeserializer, d: &mut Deserializer<'s>, error_context: &mut E) -> (r:
        Result<Option<Self>, SyntaxError>) {
        match deserialize_integer(
            value,
            d,
            error_context,
            NumericPrimitive::I128,
            i128::MAX as u128,
            0x8000_0000_0000_0000_0000_0000_0000_0000,
        )? {
            Some(out) => Ok(Some(signed_value(out))),
            None => Ok(None),
        }
    }
}

impl<'s, E: ErrorContext<'s>> Deserialize<'s, E> for isize {
    open spec fn mapped(
        value: ValueDeserializer,
        b: Seq<u8>,
        p: int,
        result: Option<Self>,
        before: E,
        after: E,
    ) -> bool {
        integer_mapped_result(
            value,
            b,
            p,
            NumericPrimitive::ISize,
            isize::MIN as int,
            isize::MAX as int,
            match result {
                Some(x) => Some(x as int),
                None => None,
            },
            before,
            after,
        )
    }

    fn deserialize(value: ValueDeserializer, d: &mut Deserializer<'s>, error_context: &mut E) -> (r:
        Result<Option<Self>, SyntaxError>) {
        match deserialize_integer(
            value,
            d,
            error_context,
            NumericPrimitive::ISize,
            isize::MAX as u128,
            isize::MAX as u128 + 1,
        )? {
            Some(out) => Ok(Some(signed_value(out) as isize)),
            None => Ok(None),
        }
    }
}

impl AssociatedNumeric for u8 {
    fn numeric_primitive() -> NumericPrimitive {
        NumericPrimitive::U8
    }
}

impl AssociatedNumeric for u16 {
    fn numeric_primitive() -> NumericPrimitive {
        NumericPrimitive::U16
    }
}

impl AssociatedNumeric for u32 {
    fn numeric_primitive() -> NumericPrimitive {
        NumericPrimitive::U32
    }
}

impl AssociatedNumeric for u64 {
    fn numeric_primitive() -> NumericPrimitive {
        NumericPrimitive::U64
    }
}

impl AssociatedNumeric for u128 {
    fn numeric_primitive() -> NumericPrimitive {
        NumericPrimitive::U128
    }
}

impl AssociatedNumeric for usize {
    fn numeric_primitive() -> NumericPrimitive {
        NumericPrimitive::USize
    }
}

impl AssociatedNumeric for i8 {
    fn numeric_primitive() -> NumericPrimitive {
        NumericPrimitive::I8
    }
}

impl AssociatedNumeric for i16 {
    fn numeric_primitive() -> NumericPrimitive {
        NumericPrimitive::I16
    }
}

impl AssociatedNumeric for i32 {
    fn numeric_primitive() -> NumericPrimitive {
        NumericPrimitive::I32
    }
}

impl AssociatedNumeric for i64 {
    fn numeric_primitive() -> NumericPrimitive {
        NumericPrimitive::I64
    }
}

impl AssociatedNumeric for i128 {
    fn numeric_primitive() -> NumericPrimitive {
        NumericPrimitive::I128
    }
}

impl AssociatedNumeric for isize {
    fn numeric_primitive() -> NumericPrimitive {
        NumericPrimitive::ISize
    }
}

/// Where one declared field of a record stands while its object is read.
#[derive(Debug)]
pub enum FieldSlot<T> {
    /// The key has not been met.
    NotSeen,
    /// The key was met, and its value could not be mapped.
    Failed,
    /// The key was met with this value.
    Present(T),
}

impl<T> FieldSlot<T> {
    pub fn new() -> (r: Self)
        ensures
            r is NotSeen,
    {
        FieldSlot::NotSeen
    }

    /// Keeps what mapping the field's value gave; a later value for the same
    /// key replaces an earlier one.
    pub fn fill(&mut self, mapped: Option<T>)
        ensures
            match mapped {
                Some(v) => *final(self) == FieldSlot::Present(v),
                None => *final(self) is Failed,
            },
    {
        *self = match mapped {
            Some(v) => FieldSlot::Present(v),
            None => FieldSlot::Failed,
        };
    }

    /// The key has been met.
    pub fn is_seen(&self) -> (r: bool)
        ensures
            r == !(self is NotSeen),
    {
        !matches!(self, FieldSlot::NotSeen)
    }

    /// The field has a value.
    pub fn is_present(&self) -> (r: bool)
        ensures
            r == (self is Present),
    {
        matches!(self, FieldSlot::Present(_))
    }

    /// The value, if the field has one.
    pub fn take(self) -> (r: Option<T>)
        ensures
            match self {
                FieldSlot::Present(v) => r == Some(v),
                _ => r is None,
            },
    {
        match self {
            FieldSlot::Present(v) => Some(v),
            _ => None,
        }
    }
}

/// Decides a record once its object has been read: it can be built when
/// every declared field has a value. When some field was never met, that is
/// reported as missing fields; when all were met but some failed, their own
/// reports stand and nothing more is reported.
pub fn finish_record<'s, E: ErrorContext<'s>>(
    all_present: bool,
    all_seen: bool,
    error_context: &mut E,
) -> (r: bool)
    requires
        all_present ==> all_seen,
    ensures
        r == all_present,
        !all_seen ==> reported(*old(error_context), *final(error_context), missing_fields_message()),
        all_seen ==> *final(error_context) == *old(error_context),
{
    if !all_seen {
        error_context.report_missing_fields();
    }
    all_present
}

} // verus!
