//! The error context: where mappings report what they could not map, with
//! the path of keys that leads to it.
use vstd::prelude::*;
use vstd::string::*;
use std::borrow::Cow;
use crate::error::JSONType;

verus! {

/// One step of the path to a value: an object key or an array index.
#[derive(Debug, PartialEq, Eq, Hash)]
pub enum KeyKind<'s> {
    Object(Cow<'s, str>),
    Array(usize),
}

impl<'s> KeyKind<'s> {
    /// The same key, holding its own copy of any text.
    pub fn into_static(self) -> (r: KeyKind<'static>)
        ensures
            match (self, r) {
                (KeyKind::Object(a), KeyKind::Object(c)) => c is Owned && c@ == a@,
                (KeyKind::Array(i), KeyKind::Array(j)) => i == j,
                _ => false,
            },
    {
        match self {
            KeyKind::Object(Cow::Borrowed(s)) => KeyKind::Object(Cow::Owned(String::from_str(s))),
            KeyKind::Object(Cow::Owned(s)) => KeyKind::Object(Cow::Owned(s)),
            KeyKind::Array(i) => KeyKind::Array(i),
        }
    }

    /// An equal key.
    pub fn duplicate(&self) -> (r: KeyKind<'s>)
        ensures
            r == *self,
    {
        match self {
            KeyKind::Object(Cow::Borrowed(s)) => KeyKind::Object(Cow::Borrowed(*s)),
            KeyKind::Object(Cow::Owned(s)) => KeyKind::Object(Cow::Owned(s.clone())),
            KeyKind::Array(i) => KeyKind::Array(*i),
        }
    }
}

/// The integer types that a number can be mapped to.
#[derive(Clone, Copy, Debug, PartialEq, Eq, Hash)]
pub enum NumericPrimitive {
    U8,
    U16,
    U32,
    U64,
    U128,
    USize,
    I8,
    I16,
    I32,
    I64,
    I128,
    ISize,
}

impl NumericPrimitive {
    pub open spec fn spec_noun(self) -> Seq<char> {
        match self {
            NumericPrimitive::U8 => "unsigned 8 bit integer"@,
            NumericPrimitive::U16 => "unsigned 16 bit integer"@,
            NumericPrimitive::U32 => "unsigned 32 bit integer"@,
            NumericPrimitive::U64 => "unsigned 64 bit integer"@,
            NumericPrimitive::U128 => "unsigned 128 bit integer"@,
            NumericPrimitive::USize => if usize::BITS == 32 {
                "unsigned 32 bit integer"@
            } else {
                "unsigned 64 bit integer"@
            },
            NumericPrimitive::I8 => "signed 8 bit integer"@,
            NumericPrimitive::I16 => "signed 16 bit integer"@,
            NumericPrimitive::I32 => "signed 32 bit integer"@,
            NumericPrimitive::I64 => "signed 64 bit integer"@,
            NumericPrimitive::I128 => "signed 128 bit integer"@,
            NumericPrimitive::ISize => if usize::BITS == 32 {
                "signed 32 bit integer"@
            } else {
                "signed 64 bit integer"@
            },
        }
    }

    pub open spec fn spec_mention(self) -> Seq<char> {
        match self {
            NumericPrimitive::U8 => "an unsigned 8 bit integer"@,
            NumericPrimitive::U16 => "an unsigned 16 bit integer"@,
            NumericPrimitive::U32 => "an unsigned 32 bit integer"@,
            NumericPrimitive::U64 => "an unsigned 64 bit integer"@,
            NumericPrimitive::U128 => "an unsigned 128 bit integer"@,
            NumericPrimitive::USize => if usize::BITS == 32 {
                "an unsigned 32 bit integer"@
            } else {
                "an unsigned 64 bit integer"@
            },
            NumericPrimitive::I8 => "a signed 8 bit integer"@,
            NumericPrimitive::I16 => "a signed 16 bit integer"@,
            NumericPrimitive::I32 => "a signed 32 bit integer"@,
            NumericPrimitive::I64 => "a signed 64 bit integer"@,
            NumericPrimitive::I128 => "a signed 128 bit integer"@,
            NumericPrimitive::ISize => if usize::BITS == 32 {
                "a signed 32 bit integer"@
            } else {
                "a signed 64 bit integer"@
            },
        }
    }

    pub open spec fn spec_min(self) -> Seq<char> {
        match self {
            NumericPrimitive::U8 => "0"@,
            NumericPrimitive::U16 => "0"@,
            NumericPrimitive::U32 => "0"@,
            NumericPrimitive::U64 => "0"@,
            NumericPrimitive::U128 => "0"@,
            NumericPrimitive::USize => if usize::BITS == 32 {
                "0"@
            } else {
                "0"@
            },
            NumericPrimitive::I8 => "-128"@,
            NumericPrimitive::I16 => "-32768"@,
            NumericPrimitive::I32 => "-2147483648"@,
            NumericPrimitive::I64 => "-9223372036854775808"@,
            NumericPrimitive::I128 => "-170141183460469231731687303715884105728"@,
            NumericPrimitive::ISize => if usize::BITS == 32 {
                "-2147483648"@
            } else {
                "-9223372036854775808"@
            },
        }
    }

    pub open spec fn spec_max(self) -> Seq<char> {
        match self {
            NumericPrimitive::U8 => "255"@,
            NumericPrimitive::U16 => "65535"@,
            NumericPrimitive::U32 => "4294967295"@,
            NumericPrimitive::U64 => "18446744073709551615"@,
            NumericPrimitive::U128 => "340282366920938463463374607431768211455"@,
            NumericPrimitive::USize => if usize::BITS == 32 {
                "4294967295"@
            } else {
                "18446744073709551615"@
            },
            NumericPrimitive::I8 => "127"@,
            NumericPrimitive::I16 => "32767"@,
            NumericPrimitive::I32 => "2147483647"@,
            NumericPrimitive::I64 => "9223372036854775807"@,
            NumericPrimitive::I128 => "170141183460469231731687303715884105727"@,
            NumericPrimitive::ISize => if usize::BITS == 32 {
                "2147483647"@
            } else {
                "9223372036854775807"@
            },
        }
    }

    /// The smallest value of the type, as its decimal text.
    pub fn min(self) -> (r: &'static str)
        ensures
            r@ == self.spec_min(),
    {
        match self {
            NumericPrimitive::U8 => "0",
            NumericPrimitive::U16 => "0",
            NumericPrimitive::U32 => "0",
            NumericPrimitive::U64 => "0",
            NumericPrimitive::U128 => "0",
            NumericPrimitive::USize => if usize::BITS == 32 {
                "0"
            } else {
                "0"
            },
            NumericPrimitive::I8 => "-128",
            NumericPrimitive::I16 => "-32768",
            NumericPrimitive::I32 => "-2147483648",
            NumericPrimitive::I64 => "-9223372036854775808",
            NumericPrimitive::I128 => "-170141183460469231731687303715884105728",
            NumericPrimitive::ISize => if usize::BITS == 32 {
                "-2147483648"
            } else {
                "-9223372036854775808"
            },
        }
    }

    /// The largest value of the type, as its decimal text.
    pub fn max(self) -> (r: &'static str)
        ensures
            r@ == self.spec_max(),
    {
        match self {
            NumericPrimitive::U8 => "255",
            NumericPrimitive::U16 => "65535",
            NumericPrimitive::U32 => "4294967295",
            NumericPrimitive::U64 => "18446744073709551615",
            NumericPrimitive::U128 => "340282366920938463463374607431768211455",
            NumericPrimitive::USize => if usize::BITS == 32 {
                "4294967295"
            } else {
                "18446744073709551615"
            },
            NumericPrimitive::I8 => "127",
            NumericPrimitive::I16 => "32767",
            NumericPrimitive::I32 => "2147483647",
            NumericPrimitive::I64 => "9223372036854775807",
            NumericPrimitive::I128 => "170141183460469231731687303715884105727",
            NumericPrimitive::ISize => if usize::BITS == 32 {
                "2147483647"
            } else {
                "9223372036854775807"
            },
        }
    }

    /// The type's name: "signed 32 bit integer", ...
    pub fn noun(self) -> (r: &'static str)
        ensures
            r@ == self.spec_noun(),
    {
        match self {
            NumericPrimitive::U8 => "unsigned 8 bit integer",
            NumericPrimitive::U16 => "unsigned 16 bit integer",
            NumericPrimitive::U32 => "unsigned 32 bit integer",
            NumericPrimitive::U64 => "unsigned 64 bit integer",
            NumericPrimitive::U128 => "unsigned 128 bit integer",
            NumericPrimitive::USize => if usize::BITS == 32 {
                "unsigned 32 bit integer"
            } else {
                "unsigned 64 bit integer"
            },
            NumericPrimitive::I8 => "signed 8 bit integer",
            NumericPrimitive::I16 => "signed 16 bit integer",
            NumericPrimitive::I32 => "signed 32 bit integer",
            NumericPrimitive::I64 => "signed 64 bit integer",
            NumericPrimitive::I128 => "signed 128 bit integer",
            NumericPrimitive::ISize => if usize::BITS == 32 {
                "signed 32 bit integer"
            } else {
                "signed 64 bit integer"
            },
        }
    }

    /// The type's name with its article: "a signed 32 bit integer", ...
    pub fn mention_by_noun(self) -> (r: &'static str)
        ensures
            r@ == self.spec_mention(),
    {
        match self {
            NumericPrimitive::U8 => "an unsigned 8 bit integer",
            NumericPrimitive::U16 => "an unsigned 16 bit integer",
            NumericPrimitive::U32 => "an unsigned 32 bit integer",
            NumericPrimitive::U64 => "an unsigned 64 bit integer",
            NumericPrimitive::U128 => "an unsigned 128 bit integer",
            NumericPrimitive::USize => if usize::BITS == 32 {
                "an unsigned 32 bit integer"
            } else {
                "an unsigned 64 bit integer"
            },
            NumericPrimitive::I8 => "a signed 8 bit integer",
            NumericPrimitive::I16 => "a signed 16 bit integer",
            NumericPrimitive::I32 => "a signed 32 bit integer",
            NumericPrimitive::I64 => "a signed 64 bit integer",
            NumericPrimitive::I128 => "a signed 128 bit integer",
            NumericPrimitive::ISize => if usize::BITS == 32 {
                "a signed 32 bit integer"
            } else {
                "a signed 64 bit integer"
            },
        }
    }
}

/// The integer types, each with the name that diagnostics give it.
pub trait AssociatedNumeric {
    fn numeric_primitive() -> NumericPrimitive;
}

/// The nouns after the first in a list of expected kinds: ", array, string".
pub open spec fn later_nouns(kinds: Seq<JSONType>) -> Seq<char>
    decreases kinds.len(),
{
    if kinds.len() == 0 {
        Seq::empty()
    } else {
        later_nouns(kinds.drop_last()) + ", "@ + kinds.last().spec_noun()
    }
}

/// "expected an object, found a string"; with more kinds,
/// "expected an object, array or string, found a number".
pub open spec fn unexpected_type_message(unexpected: JSONType, expected: Seq<JSONType>) -> Seq<char> {
    let n = expected.len();
    let list = if n == 1 {
        expected[0].spec_mention()
    } else {
        expected[0].spec_mention() + later_nouns(expected.subrange(1, n - 1)) + " or "@
            + expected[n - 1].spec_noun()
    };
    "expected "@ + list + ", found "@ + unexpected.spec_mention()
}

pub open spec fn string_expected_borrowed_message() -> Seq<char> {
    "expected a string borrowed from source, found an owned string"@
}

pub open spec fn overflow_message(ty: NumericPrimitive) -> Seq<char> {
    "value causes an integer overflow in target ("@ + ty.spec_mention() + ")"@
}

pub open spec fn underflow_message(ty: NumericPrimitive) -> Seq<char> {
    "value causes an integer underflow in target ("@ + ty.spec_mention() + ")"@
}

pub open spec fn fractional_message() -> Seq<char> {
    "number cannot fit in target value due to having a fractional component"@
}

pub open spec fn missing_fields_message() -> Seq<char> {
    "missing fields"@
}

/// What mappings report to, chosen by the caller.
///
/// A context that `records()` keeps a path of keys and a list of reports,
/// each a message with the path at which it was made; for such a context
/// the contracts below say exactly how each call changes them. Others (the
/// unit context) are free to drop everything, and a context that keeps the
/// defaults below is taken to be one of them.
pub trait ErrorContext<'s>: Sized {
    open spec fn records(&self) -> bool {
        false
    }

    open spec fn path(&self) -> Seq<KeyKind<'s>> {
        Seq::empty()
    }

    open spec fn reports(&self) -> Seq<(Seq<char>, Seq<KeyKind<'s>>)> {
        Seq::empty()
    }

    fn report_unknown(&mut self, message: String)
        ensures
            final(self).records() == old(self).records(),
            old(self).records() ==> final(self).path() == old(self).path()
                && final(self).reports() == old(self).reports().push((message@, old(self).path())),
    ;

    fn report_unexpected_type(&mut self, unexpected: JSONType, expected: &[JSONType])
        requires
            expected@.len() > 0,
        ensures
            final(self).records() == old(self).records(),
            old(self).records() ==> final(self).path() == old(self).path()
                && final(self).reports() == old(self).reports().push((unexpected_type_message(unexpected, expected@), old(self).path())),
    {
        let message = unexpected_type_text(unexpected, expected);
        self.report_unknown(message);
    }

    fn report_string_expected_borrowed(&mut self)
        ensures
            final(self).records() == old(self).records(),
            old(self).records() ==> final(self).path() == old(self).path()
                && final(self).reports() == old(self).reports().push((string_expected_borrowed_message(), old(self).path())),
    {
        let message = String::from_str("expected a string borrowed from source, found an owned string");
        self.report_unknown(message);
    }

    fn report_number_overflow(&mut self, ty: NumericPrimitive)
        ensures
            final(self).records() == old(self).records(),
            old(self).records() ==> final(self).path() == old(self).path()
                && final(self).reports() == old(self).reports().push((overflow_message(ty), old(self).path())),
    {
        let mut message = String::from_str("value causes an integer overflow in target (");
        message.append(ty.mention_by_noun());
        message.append(")");
        self.report_unknown(message);
    }

    fn report_number_underflow(&mut self, ty: NumericPrimitive)
        ensures
            final(self).records() == old(self).records(),
            old(self).records() ==> final(self).path() == old(self).path()
                && final(self).reports() == old(self).reports().push((underflow_message(ty), old(self).path())),
    {
        let mut message = String::from_str("value causes an integer underflow in target (");
        message.append(ty.mention_by_noun());
        message.append(")");
        self.report_unknown(message);
    }

    fn report_number_fractional(&mut self)
        ensures
            final(self).records() == old(self).records(),
            old(self).records() ==> final(self).path() == old(self).path()
                && final(self).reports() == old(self).reports().push((fractional_message(), old(self).path())),
    {
        let message = String::from_str(
            "number cannot fit in target value due to having a fractional component",
        );
        self.report_unknown(message);
    }

    fn report_missing_fields(&mut self)
        ensures
            final(self).records() == old(self).records(),
            old(self).records() ==> final(self).path() == old(self).path()
                && final(self).reports() == old(self).reports().push((missing_fields_message(), old(self).path())),
    {
        let message = String::from_str("missing fields");
        self.report_unknown(message);
    }

    fn push_key(&mut self, key: KeyKind<'s>)
        ensures
            final(self).records() == old(self).records(),
            old(self).records() ==> final(self).path() == old(self).path().push(key)
                && final(self).reports() == old(self).reports(),
    ;

    fn pop_key(&mut self)
        requires
            old(self).records() ==> old(self).path().len() > 0,
        ensures
            final(self).records() == old(self).records(),
            old(self).records() ==> final(self).path() == old(self).path().drop_last()
                && final(self).reports() == old(self).reports(),
    ;
}

/// `after` is `before` with one more report of `message`, if it records.
pub open spec fn reported<'s, E: ErrorContext<'s>>(before: E, after: E, message: Seq<char>) -> bool {
    &&& after.records() == before.records()
    &&& before.records() ==> after.path() == before.path() && after.reports()
        == before.reports().push((message, before.path()))
}

/// `inner` is `before` with `key` pushed on its path, if it records.
pub open spec fn pushed<'s, E: ErrorContext<'s>>(before: E, inner: E, key: KeyKind<'s>) -> bool {
    &&& inner.records() == before.records()
    &&& before.records() ==> inner.path() == before.path().push(key) && inner.reports()
        == before.reports()
}

/// `after` is `inner` with the last key of its path popped, if it records.
pub open spec fn popped<'s, E: ErrorContext<'s>>(inner: E, after: E) -> bool {
    &&& after.records() == inner.records()
    &&& inner.records() ==> after.path() == inner.path().drop_last() && after.reports()
        == inner.reports()
}

/// `after` holds what `before` held, if it records.
pub open spec fn unchanged<'s, E: ErrorContext<'s>>(before: E, after: E) -> bool {
    &&& after.records() == before.records()
    &&& before.records() ==> after.path() == before.path() && after.reports() == before.reports()
}

/// The message for `report_unexpected_type`.
fn unexpected_type_text(unexpected: JSONType, expected: &[JSONType]) -> (r: String)
    requires
        expected@.len() > 0,
    ensures
        r@ == unexpected_type_message(unexpected, expected@),
{
    let n = expected.len();
    let mut message = String::from_str("expected ");
    message.append(expected[0].mention_by_noun());
    if n > 1 {
        let mut i: usize = 1;
        while i < n - 1
            invariant
                n == expected@.len(),
                1 <= i <= n - 1,
                message@ == "expected "@ + expected@[0].spec_mention() + later_nouns(
                    expected@.subrange(1, i as int),
                ),
            decreases n - i,
        {
            let ghost before = message@;
            message.append(", ");
            message.append(expected[i].noun());
            proof {
                let s = expected@.subrange(1, i + 1);
                assert(s.drop_last() =~= expected@.subrange(1, i as int));
                assert(message@ =~= before + ", "@ + s.last().spec_noun());
            }
            i = i + 1;
        }
        message.append(" or ");
        message.append(expected[n - 1].noun());
    }
    message.append(", found ");
    message.append(unexpected.mention_by_noun());
    proof {
        assert(message@ =~= unexpected_type_message(unexpected, expected@));
    }
    message
}

/// A report: its message and the path at which it was made.
#[derive(Debug)]
pub struct Diagnostic<'s> {
    pub message: String,
    pub path: Vec<KeyKind<'s>>,
}

/// A context that keeps every report with its path.
#[derive(Debug)]
pub struct Diagnostics<'s> {
    path: Vec<KeyKind<'s>>,
    errors: Vec<Diagnostic<'s>>,
}

impl<'s> Diagnostics<'s> {
    pub fn new() -> (r: Self)
        ensures
            r.records(),
            r.path() == Seq::<KeyKind<'s>>::empty(),
            r.reports() == Seq::<(Seq<char>, Seq<KeyKind<'s>>)>::empty(),
    {
        let r = Diagnostics { path: Vec::new(), errors: Vec::new() };
        assert(r.errors@.map_values(|e: Diagnostic<'s>| (e.message@, e.path@)) =~= Seq::<(Seq<char>, Seq<KeyKind<'s>>)>::empty());
        r
    }

    /// The reports made so far.
    pub fn errors(&self) -> (r: &Vec<Diagnostic<'s>>)
        ensures
            r@.map_values(|e: Diagnostic<'s>| (e.message@, e.path@)) == self.reports(),
    {
        &self.errors
    }

    /// The current path of keys.
    pub fn current_path(&self) -> (r: &Vec<KeyKind<'s>>)
        ensures
            r@ == self.path(),
    {
        &self.path
    }

    /// The reports made, in order.
    pub fn finalize(self) -> (r: Vec<Diagnostic<'s>>)
        ensures
            r@.map_values(|e: Diagnostic<'s>| (e.message@, e.path@)) == self.reports(),
    {
        self.errors
    }
}

impl<'s> Default for Diagnostics<'s> {
    fn default() -> (r: Self)
        ensures
            r.records(),
            r.path() == Seq::<KeyKind<'s>>::empty(),
            r.reports() == Seq::<(Seq<char>, Seq<KeyKind<'s>>)>::empty(),
    {
        Diagnostics::new()
    }
}

impl<'s> ErrorContext<'s> for Diagnostics<'s> {
    open spec fn records(&self) -> bool {
        true
    }

    closed spec fn path(&self) -> Seq<KeyKind<'s>> {
        self.path@
    }

    closed spec fn reports(&self) -> Seq<(Seq<char>, Seq<KeyKind<'s>>)> {
        self.errors@.map_values(|e: Diagnostic<'s>| (e.message@, e.path@))
    }

    fn report_unknown(&mut self, message: String) {
        let mut path: Vec<KeyKind<'s>> = Vec::new();
        let mut i: usize = 0;
        while i < self.path.len()
            invariant
                0 <= i <= self.path@.len(),
                path@ == self.path@.subrange(0, i as int),
                self.path@ == old(self).path@,
                self.errors@ == old(self).errors@,
            decreases self.path@.len() - i,
        {
            path.push(self.path[i].duplicate());
            proof {
                assert(path@ =~= self.path@.subrange(0, i + 1));
            }
            i = i + 1;
        }
        proof {
            assert(path@ =~= self.path@);
        }
        let ghost m = message@;
        self.errors.push(Diagnostic { message, path });
        proof {
            assert(self.errors@.map_values(|e: Diagnostic<'s>| (e.message@, e.path@)) =~= old(
                self,
            ).errors@.map_values(|e: Diagnostic<'s>| (e.message@, e.path@)).push((m, old(self).path@)));
        }
    }

    fn push_key(&mut self, key: KeyKind<'s>) {
        self.path.push(key);
    }

    fn pop_key(&mut self) {
        self.path.pop();
        proof {
            assert(self.path@ =~= old(self).path@.drop_last());
        }
    }
}

impl<'s> ErrorContext<'s> for () {
    fn report_unknown(&mut self, message: String) {
    }

    fn push_key(&mut self, key: KeyKind<'s>) {
    }

    fn pop_key(&mut self) {
    }
}

} // verus!
