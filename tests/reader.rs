use qj::cursor::Deserializer;
use qj::error::{JSONType, SyntaxError};
use qj::number::read_number;
use qj::string::read_string;
use qj::value::ValueDeserializer;
use std::borrow::Cow;

fn expected(chars: &str) -> Vec<char> {
    chars.chars().collect()
}

#[test]
fn probe_classifies_each_kind() {
    let cases: [(&str, JSONType); 8] = [
        ("{}", JSONType::Object),
        (" [1]", JSONType::Array),
        ("\"s\"", JSONType::String),
        ("-3", JSONType::Number),
        ("7", JSONType::Number),
        ("true", JSONType::Boolean),
        ("false", JSONType::Boolean),
        ("null", JSONType::Null),
    ];
    for (input, kind) in cases {
        let mut d = Deserializer::new(input);
        let value = ValueDeserializer::new(&mut d).unwrap();
        assert_eq!(value.kind(), kind, "{}", input);
    }
}

#[test]
fn probe_reads_literals_whole() {
    let mut d = Deserializer::new("  false,");
    let value = ValueDeserializer::new(&mut d).unwrap();
    assert!(matches!(value, ValueDeserializer::Boolean(false)));
    assert_eq!(d.consumed(), 7);
}

#[test]
fn probe_rejects_unknown_start() {
    let mut d = Deserializer::new("  x");
    let err = ValueDeserializer::new(&mut d).unwrap_err();
    assert_eq!(
        err,
        SyntaxError::Unexpected {
            unexpected: Some('x'),
            expected: expected("{[\"0123456789ftn"),
            end_expected: false,
            location: 0,
        }
    );
    assert_eq!(err.location(), 0);
    assert_eq!(d.consumed(), 0);
}

#[test]
fn probe_rejects_broken_literal_and_end() {
    let mut d = Deserializer::new("tru");
    let err = ValueDeserializer::new(&mut d).unwrap_err();
    assert!(matches!(err, SyntaxError::Unexpected { unexpected: Some('t'), location: 0, .. }));
    let mut d = Deserializer::new("   ");
    let err = ValueDeserializer::new(&mut d).unwrap_err();
    assert!(matches!(err, SyntaxError::Unexpected { unexpected: None, location: 0, .. }));
}

#[test]
fn probe_reports_non_ascii_character() {
    let mut d = Deserializer::new(" é");
    let err = ValueDeserializer::new(&mut d).unwrap_err();
    assert!(matches!(err, SyntaxError::Unexpected { unexpected: Some('é'), location: 0, .. }));
}

#[test]
fn string_without_escape_is_borrowed() {
    let input = "  \"héllo wörld\" tail";
    let mut d = Deserializer::new(input);
    let s = read_string(&mut d).unwrap();
    assert!(matches!(s, Cow::Borrowed(_)));
    assert_eq!(s, "héllo wörld");
    assert_eq!(s.as_bytes(), &input.as_bytes()[3..d.consumed() - 1]);
    assert_eq!(&input[d.consumed()..], " tail");
}

#[test]
fn string_with_escapes_is_owned() {
    let mut d = Deserializer::new("\"a\\n\\t\\r\\b\\f\\/\\\\\\\"é\"");
    let s = read_string(&mut d).unwrap();
    assert!(matches!(s, Cow::Owned(_)));
    assert_eq!(s, "a\n\t\r\u{8}\u{c}/\\\"é");
}

#[test]
fn string_errors() {
    let mut d = Deserializer::new("\"abc");
    assert_eq!(read_string(&mut d).unwrap_err(), SyntaxError::StringUnterminated);
    let mut d = Deserializer::new("\"a\u{1}b\"");
    assert_eq!(read_string(&mut d).unwrap_err(), SyntaxError::StringUnexpectedControlChar);
    let mut d = Deserializer::new("\"a\\qb\"");
    assert_eq!(read_string(&mut d).unwrap_err(), SyntaxError::StringUnexpectedEscape('q'));
    let mut d = Deserializer::new("\"a\\u0041\"");
    assert_eq!(read_string(&mut d).unwrap_err(), SyntaxError::StringUnexpectedEscape('u'));
    let mut d = Deserializer::new("  5");
    assert_eq!(
        read_string(&mut d).unwrap_err(),
        SyntaxError::Unexpected {
            unexpected: Some('5'),
            expected: vec!['"'],
            end_expected: false,
            location: 3
        }
    );
}

#[test]
fn number_token_parts() {
    let mut d = Deserializer::new(" -123.456e+7,");
    let n = read_number(&mut d).unwrap();
    assert_eq!(n.source, "-123.456e+7");
    assert_eq!(n.base(), "123");
    assert_eq!(n.fraction(), Some("456"));
    assert_eq!(n.exponent(), Some("7"));
    assert!(!n.base_positive);
    assert!(n.exponent_positive);
    assert_eq!(d.consumed(), 12);
}

#[test]
fn number_token_without_optional_parts() {
    let mut d = Deserializer::new("0]");
    let n = read_number(&mut d).unwrap();
    assert_eq!(n.base(), "0");
    assert_eq!(n.fraction(), None);
    assert_eq!(n.exponent(), None);
    assert!(n.base_positive);
    assert_eq!(d.consumed(), 1);
    let mut d = Deserializer::new("1E-2");
    let n = read_number(&mut d).unwrap();
    assert_eq!(n.exponent(), Some("2"));
    assert!(!n.exponent_positive);
}

#[test]
fn number_leading_zero_ends_the_integer_part() {
    let mut d = Deserializer::new("012");
    let n = read_number(&mut d).unwrap();
    assert_eq!(n.base(), "0");
    assert_eq!(d.consumed(), 1);
}

#[test]
fn number_errors() {
    let digits = expected("0123456789");
    let mut d = Deserializer::new("-x");
    assert_eq!(
        read_number(&mut d).unwrap_err(),
        SyntaxError::Unexpected { unexpected: Some('x'), expected: digits.clone(), end_expected: false, location: 2 }
    );
    let mut d = Deserializer::new("1.");
    assert_eq!(
        read_number(&mut d).unwrap_err(),
        SyntaxError::Unexpected { unexpected: None, expected: digits.clone(), end_expected: false, location: 2 }
    );
    let mut d = Deserializer::new("1e");
    assert_eq!(
        read_number(&mut d).unwrap_err(),
        SyntaxError::Unexpected { unexpected: None, expected: expected("+-0123456789"), end_expected: false, location: 2 }
    );
    let mut d = Deserializer::new("1e+a");
    assert_eq!(
        read_number(&mut d).unwrap_err(),
        SyntaxError::Unexpected { unexpected: Some('a'), expected: digits, end_expected: false, location: 4 }
    );
}

#[test]
fn negative_float_token_gives_its_value() {
    // The token keeps the parts from which a float is computed.
    let mut d = Deserializer::new("-69.0");
    let n = read_number(&mut d).unwrap();
    let mut value: f64 = n.base().parse::<f64>().unwrap();
    value += format!("0.{}", n.fraction().unwrap()).parse::<f64>().unwrap();
    if !n.base_positive {
        value = -value;
    }
    assert_eq!(value, -69.0);
}

#[test]
fn abandoned_object_is_drained_past_its_brace() {
    let input = "{\"a\": [1, {\"b\": \"c\"}], \"d\": null} , 5";
    let mut d = Deserializer::new(input);
    let value = ValueDeserializer::new(&mut d).unwrap();
    value.skip(&mut d).unwrap();
    assert_eq!(d.consumed(), input.rfind('}').unwrap() + 1);
}

#[test]
fn object_closed_after_first_entry() {
    let input = "{\"a\": 1, \"b\": [true, false]}x";
    let mut d = Deserializer::new(input);
    let mut object = match ValueDeserializer::new(&mut d).unwrap() {
        ValueDeserializer::Object(o) => o,
        _ => panic!("not an object"),
    };
    let field = object.next_entry(&mut d).unwrap().unwrap();
    field.skip(&mut d).unwrap();
    object.close(&mut d).unwrap();
    assert_eq!(d.consumed(), input.len() - 1);
}

#[test]
fn array_closed_unread() {
    let input = "[ [1,2], {\"k\": \"v\"}, \"s\" ] ,";
    let mut d = Deserializer::new(input);
    let array = match ValueDeserializer::new(&mut d).unwrap() {
        ValueDeserializer::Array(a) => a,
        _ => panic!("not an array"),
    };
    array.close(&mut d).unwrap();
    assert_eq!(d.consumed(), input.len() - 2);
}

#[test]
fn array_elements_in_order() {
    let mut d = Deserializer::new("[1, \"two\", null]");
    let mut array = match ValueDeserializer::new(&mut d).unwrap() {
        ValueDeserializer::Array(a) => a,
        _ => panic!("not an array"),
    };
    let mut kinds = Vec::new();
    while let Some(value) = array.next_entry(&mut d).unwrap() {
        kinds.push(value.kind());
        value.skip(&mut d).unwrap();
    }
    assert_eq!(kinds, vec![JSONType::Number, JSONType::String, JSONType::Null]);
    assert_eq!(d.consumed(), 15);
    array.close(&mut d).unwrap();
    assert_eq!(d.consumed(), 16);
}

#[test]
fn empty_composites() {
    let mut d = Deserializer::new("{ }");
    let mut object = match ValueDeserializer::new(&mut d).unwrap() {
        ValueDeserializer::Object(o) => o,
        _ => panic!("not an object"),
    };
    assert!(object.next_entry(&mut d).unwrap().is_none());
    // the `{` is read, the `}` is left for close
    assert_eq!(d.consumed(), 1);
    assert!(object.next_entry(&mut d).unwrap().is_none());
    assert_eq!(d.consumed(), 1);
    object.close(&mut d).unwrap();
    assert_eq!(d.consumed(), 3);
    let mut d = Deserializer::new("[]");
    let mut array = match ValueDeserializer::new(&mut d).unwrap() {
        ValueDeserializer::Array(a) => a,
        _ => panic!("not an array"),
    };
    assert!(array.next_entry(&mut d).unwrap().is_none());
    assert_eq!(d.consumed(), 1);
    array.close(&mut d).unwrap();
    assert_eq!(d.consumed(), 2);
}

#[test]
fn bad_separators() {
    let mut d = Deserializer::new("{\"a\": 1 \"b\": 2}");
    let value = ValueDeserializer::new(&mut d).unwrap();
    let err = value.skip(&mut d).unwrap_err();
    assert_eq!(
        err,
        SyntaxError::Unexpected { unexpected: Some('"'), expected: vec!['}', ','], end_expected: false, location: 7 }
    );
    let mut d = Deserializer::new("[1 2]");
    let value = ValueDeserializer::new(&mut d).unwrap();
    let err = value.skip(&mut d).unwrap_err();
    assert_eq!(
        err,
        SyntaxError::Unexpected { unexpected: Some('2'), expected: vec![']', ','], end_expected: false, location: 2 }
    );
    let mut d = Deserializer::new("{\"a\" 1}");
    let value = ValueDeserializer::new(&mut d).unwrap();
    let err = value.skip(&mut d).unwrap_err();
    assert_eq!(
        err,
        SyntaxError::Unexpected { unexpected: Some('1'), expected: vec![':'], end_expected: false, location: 6 }
    );
}

#[test]
fn kind_names() {
    assert_eq!(JSONType::Object.noun(), "object");
    assert_eq!(JSONType::Array.mention_by_noun(), "an array");
    assert_eq!(JSONType::Null.mention_by_noun(), "null");
    assert_eq!(JSONType::Boolean.noun(), "boolean");
}

#[test]
fn other_errors_have_no_location() {
    assert_eq!(SyntaxError::StringUnterminated.location(), 0);
    assert_eq!(SyntaxError::NumberExpectedDigit.location(), 0);
    assert_eq!(SyntaxError::NumberIncomplete.location(), 0);
}

#[test]
fn probe_leaves_the_cursor_before_an_opener() {
    for input in ["  {}", " [1]", "\t\"s\"", "\n-4"] {
        let mut d = Deserializer::new(input);
        let value = ValueDeserializer::new(&mut d).unwrap();
        assert_eq!(d.consumed(), 0, "{}", input);
        value.skip(&mut d).unwrap();
        assert_eq!(d.consumed(), input.len(), "{}", input);
    }
}

#[test]
fn wrong_separator_leaves_the_cursor() {
    let input = "{\"a\": 1  x}";
    let mut d = Deserializer::new(input);
    let mut object = match ValueDeserializer::new(&mut d).unwrap() {
        ValueDeserializer::Object(o) => o,
        _ => panic!("not an object"),
    };
    let field = object.next_entry(&mut d).unwrap().unwrap();
    field.skip(&mut d).unwrap();
    assert_eq!(d.consumed(), 7);
    let err = object.next_entry(&mut d).unwrap_err();
    assert_eq!(
        err,
        SyntaxError::Unexpected { unexpected: Some('x'), expected: vec!['}', ','], end_expected: false, location: 7 }
    );
    assert_eq!(d.consumed(), 7);
}

#[test]
fn missing_opener_is_reported_past_the_character() {
    let mut d = Deserializer::new(" x");
    let mut object = qj::value::ObjectDeserializer { past_first: false };
    let err = object.next_entry(&mut d).unwrap_err();
    assert_eq!(
        err,
        SyntaxError::Unexpected { unexpected: Some('x'), expected: vec!['{'], end_expected: false, location: 2 }
    );
}
