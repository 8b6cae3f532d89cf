use qj::context::{Diagnostics, ErrorContext, KeyKind, NumericPrimitive};
use qj::cursor::Deserializer;
use qj::error::{JSONType, SyntaxError};
use qj::integer::{integer_of, IntegerValue};
use qj::mapping::{finish_record, from_str_default, from_str_with, reject, Deserialize, FieldSlot};
use qj::number::read_number;
use qj::value::ValueDeserializer;
use std::borrow::Cow;
use std::collections::HashMap;

fn parse<'s, T: Deserialize<'s, Diagnostics<'s>>>(input: &'s str) -> (Option<T>, Vec<(String, Vec<KeyKind<'s>>)>) {
    let (result, context) = from_str_default::<T, Diagnostics>(input);
    let reports = context
        .finalize()
        .into_iter()
        .map(|diagnostic| (diagnostic.message, diagnostic.path))
        .collect();
    (result.unwrap(), reports)
}

#[test]
fn bool_true() {
    assert_eq!(parse::<bool>("true"), (Some(true), vec![]));
}

#[test]
fn bool_false() {
    assert_eq!(parse::<bool>("false"), (Some(false), vec![]));
}

#[test]
fn bool_from_number_is_reported() {
    let (value, reports) = parse::<bool>("12");
    assert_eq!(value, None);
    assert_eq!(reports, vec![("expected a boolean, found a number".to_string(), vec![])]);
}

#[test]
fn map_none() {
    let (value, reports) = parse::<HashMap<String, &str>>("{}");
    assert_eq!(value, Some(HashMap::new()));
    assert!(reports.is_empty());
}

#[test]
fn map_single() {
    let (value, _) = parse::<HashMap<String, &str>>("{\"hello\":\"there\"}");
    let mut expected = HashMap::new();
    expected.insert("hello".to_string(), "there");
    assert_eq!(value, Some(expected));
}

#[test]
fn map_plural() {
    let (value, _) = parse::<HashMap<String, &str>>("{\"hello\":\"there\",\"there\":\"hello\"}");
    let mut expected = HashMap::new();
    expected.insert("hello".to_string(), "there");
    expected.insert("there".to_string(), "hello");
    assert_eq!(value, Some(expected));
}

#[test]
fn map_duplicate_keys_keep_the_last() {
    let (value, _) = parse::<HashMap<String, u8>>("{\"k\": 1, \"k\": 2}");
    let mut expected = HashMap::new();
    expected.insert("k".to_string(), 2u8);
    assert_eq!(value, Some(expected));
}

#[test]
fn map_skips_unmappable_entry_with_its_path() {
    let (value, reports) = parse::<HashMap<String, String>>("{\"a\":1,\"b\":\"x\"}");
    let mut expected = HashMap::new();
    expected.insert("b".to_string(), "x".to_string());
    assert_eq!(value, Some(expected));
    assert_eq!(
        reports,
        vec![(
            "expected a string, found a number".to_string(),
            vec![KeyKind::Object(Cow::Borrowed("a"))]
        )]
    );
}

#[test]
fn vec_none() {
    assert_eq!(parse::<Vec<&str>>("[]"), (Some(vec![]), vec![]));
}

#[test]
fn vec_single() {
    assert_eq!(parse::<Vec<&str>>("[\"hello\"]"), (Some(vec!["hello"]), vec![]));
}

#[test]
fn vec_plural_owned() {
    let (value, reports) = parse::<Vec<String>>("[\"hello\",\"there\",\"how\"]");
    assert_eq!(value, Some(vec!["hello".to_string(), "there".to_string(), "how".to_string()]));
    assert!(reports.is_empty());
}

#[test]
fn vec_skips_unmappable_elements_keeping_indices() {
    let (value, reports) = parse::<Vec<u8>>("[1, \"x\", 3, 300]");
    assert_eq!(value, Some(vec![1, 3]));
    assert_eq!(reports.len(), 2);
    assert_eq!(reports[0].1, vec![KeyKind::Array(1)]);
    assert_eq!(reports[1].0, "value causes an integer overflow in target (an unsigned 8 bit integer)");
    assert_eq!(reports[1].1, vec![KeyKind::Array(3)]);
}

#[test]
fn nested_paths() {
    let (value, reports) = parse::<HashMap<String, Vec<bool>>>("{\"outer\": [true, null]}");
    let mut expected = HashMap::new();
    expected.insert("outer".to_string(), vec![true]);
    assert_eq!(value, Some(expected));
    assert_eq!(
        reports,
        vec![(
            "expected a boolean, found null".to_string(),
            vec![KeyKind::Object(Cow::Borrowed("outer")), KeyKind::Array(1)]
        )]
    );
}

#[test]
fn path_is_empty_after_syntax_error() {
    let mut context = Diagnostics::new();
    let (result, _) = from_str_with::<Vec<Vec<u8>>, Diagnostics>("[[1, 2], [3,", &mut context);
    assert!(result.is_err());
    assert!(context.current_path().is_empty());
}

#[test]
fn whole_input_is_consumed() {
    let input = "{\"a\": [1, 2, {\"b\": null}], \"c\": \"d\"}";
    let mut context = Diagnostics::new();
    let (result, consumed) = from_str_with::<HashMap<String, Option<String>>, Diagnostics>(input, &mut context);
    assert!(result.is_ok());
    assert_eq!(consumed, input.len());
}

#[test]
fn surrounding_whitespace_is_read() {
    let input = " \n[1, 2] \t ";
    let mut context = ();
    let (result, consumed) = from_str_with::<Vec<u32>, ()>(input, &mut context);
    assert_eq!(result.unwrap(), Some(vec![1, 2]));
    assert_eq!(consumed, input.len());
}

#[test]
fn text_after_the_value_is_not_read() {
    let input = "[1] x";
    let mut context = ();
    let (result, consumed) = from_str_with::<Vec<u32>, ()>(input, &mut context);
    assert_eq!(result.unwrap(), Some(vec![1]));
    assert_eq!(consumed, 4);
}

#[test]
fn option_null_is_some_none_without_report() {
    assert_eq!(parse::<Option<u32>>("null"), (Some(None), vec![]));
    assert_eq!(parse::<Option<String>>(" null"), (Some(None), vec![]));
}

#[test]
fn option_value_is_lifted() {
    assert_eq!(parse::<Option<u32>>("7"), (Some(Some(7)), vec![]));
}

#[test]
fn integer_in_range() {
    assert_eq!(parse::<u8>("255").0, Some(255));
    assert_eq!(parse::<i8>("-128").0, Some(-128));
    assert_eq!(parse::<i64>("-4839855329580").0, Some(-4839855329580));
    assert_eq!(parse::<u32>("1e2").0, Some(100));
    assert_eq!(parse::<u32>("100e-2").0, Some(1));
    assert_eq!(parse::<i32>("-0").0, Some(0));
    assert_eq!(parse::<u8>("0.000e5").0, Some(0));
    assert_eq!(parse::<i128>("-170141183460469231731687303715884105728").0, Some(i128::MIN));
    assert_eq!(parse::<u128>("340282366920938463463374607431768211455").0, Some(u128::MAX));
    assert_eq!(parse::<u64>("12.5e1").0, Some(125));
}

#[test]
fn integer_overflow_is_reported_once() {
    let (value, reports) = parse::<i32>("12345678901234567890");
    assert_eq!(value, None);
    assert_eq!(
        reports,
        vec![("value causes an integer overflow in target (a signed 32 bit integer)".to_string(), vec![])]
    );
}

#[test]
fn integer_underflow_is_reported_once() {
    let (value, reports) = parse::<u8>("-1");
    assert_eq!(value, None);
    assert_eq!(
        reports,
        vec![("value causes an integer underflow in target (an unsigned 8 bit integer)".to_string(), vec![])]
    );
    let (value, reports) = parse::<i8>("-129");
    assert_eq!(value, None);
    assert_eq!(reports.len(), 1);
}

#[test]
fn integer_fraction_is_reported_once() {
    let (value, reports) = parse::<u32>("1.5");
    assert_eq!(value, None);
    assert_eq!(
        reports,
        vec![(
            "number cannot fit in target value due to having a fractional component".to_string(),
            vec![]
        )]
    );
    assert_eq!(parse::<u32>("15e-1").0, None);
}

#[test]
fn huge_exponents() {
    assert_eq!(parse::<u8>("1e99999999999999999999999").1[0].0, "value causes an integer overflow in target (an unsigned 8 bit integer)");
    assert_eq!(parse::<u8>("-1e99999999999999999999999").1[0].0, "value causes an integer underflow in target (an unsigned 8 bit integer)");
    assert_eq!(parse::<u8>("1e-99999999999999999999999").1[0].0, "number cannot fit in target value due to having a fractional component");
    assert_eq!(parse::<u8>("0e99999999999999999999999").0, Some(0));
}

#[test]
fn integer_value_of_tokens() {
    let value = |input: &str| {
        let mut d = Deserializer::new(input);
        integer_of(&read_number(&mut d).unwrap())
    };
    assert_eq!(value("-120e-1"), IntegerValue::Whole { negative: true, magnitude: 12 });
    assert_eq!(value("0.25"), IntegerValue::Fractional);
    assert_eq!(value("1e39"), IntegerValue::Huge { negative: false });
    assert_eq!(value("-340282366920938463463374607431768211456"), IntegerValue::Huge { negative: true });
}

#[test]
fn borrowed_string_target_rejects_escapes() {
    let (value, reports) = parse::<&str>("\"much\\nwow\"");
    assert_eq!(value, None);
    assert_eq!(
        reports,
        vec![("expected a string borrowed from source, found an owned string".to_string(), vec![])]
    );
    assert_eq!(parse::<String>("\"much\\nwow\"").0, Some("much\nwow".to_string()));
    assert_eq!(parse::<&str>("\"such parse\"").0, Some("such parse"));
}

#[test]
fn cow_target_keeps_both_arms() {
    let (value, _) = parse::<Cow<str>>("\"plain\"");
    assert!(matches!(value, Some(Cow::Borrowed("plain"))));
    let (value, _) = parse::<Cow<str>>("\"tab\\t\"");
    assert!(matches!(value, Some(Cow::Owned(ref s)) if s == "tab\t"));
}

#[test]
fn syntax_error_stops_mapping() {
    let (result, context) = from_str_default::<Vec<u8>, Diagnostics>("[1, 2");
    assert_eq!(
        result.unwrap_err(),
        SyntaxError::Unexpected { unexpected: None, expected: vec![']', ','], end_expected: false, location: 5 }
    );
    assert!(context.errors().is_empty());
}

#[test]
fn unit_context_drops_reports() {
    let (result, ()) = from_str_default::<u8, ()>("300");
    assert_eq!(result.unwrap(), None);
}

#[test]
fn key_into_static() {
    let key = KeyKind::Object(Cow::Borrowed("k"));
    let owned = key.into_static();
    assert!(matches!(owned, KeyKind::Object(Cow::Owned(ref s)) if s == "k"));
    assert_eq!(KeyKind::Array(3).into_static(), KeyKind::Array(3));
}

#[test]
fn numeric_names() {
    assert_eq!(NumericPrimitive::I32.mention_by_noun(), "a signed 32 bit integer");
    assert_eq!(NumericPrimitive::U8.noun(), "unsigned 8 bit integer");
    assert_eq!(NumericPrimitive::I8.min(), "-128");
    assert_eq!(NumericPrimitive::U16.max(), "65535");
    assert_eq!(NumericPrimitive::I128.min(), i128::MIN.to_string());
    assert_eq!(NumericPrimitive::U64.max(), u64::MAX.to_string());
}

#[test]
fn unexpected_type_message_lists_kinds() {
    let mut context = Diagnostics::new();
    context.report_unexpected_type(JSONType::Null, &[JSONType::Object, JSONType::Array, JSONType::String]);
    context.report_unexpected_type(JSONType::Null, &[JSONType::Object, JSONType::Array]);
    let reports = context.finalize();
    assert_eq!(reports[0].message, "expected an object, array or string, found null");
    assert_eq!(reports[1].message, "expected an object or array, found null");
}

// The record mappings below are what a deriving macro writes for these
// types; they drive the core through its public handles.

#[derive(Debug, PartialEq)]
struct Complex<'s> {
    what_if: ComplexA<'s>,
    we_put: ComplexB,
    our: ComplexC,
}

#[derive(Debug, PartialEq)]
enum ComplexA<'s> {
    ThisIsAVariant,
    ThisIsAlsoAVariant(Cow<'s, str>, u32),
    IfYouHaveMoreCreativeNamesPleaseMakeAPullRequest { minecraft: i64, beds: String, together: &'s str },
}

#[derive(Debug, PartialEq)]
struct ComplexB(String, u8, String);

#[derive(Debug, PartialEq)]
struct ComplexC;

fn element<'s, T: Deserialize<'s, E>, E: ErrorContext<'s>>(
    array: &mut qj::value::ArrayDeserializer,
    d: &mut Deserializer<'s>,
    e: &mut E,
    index: usize,
) -> Result<Option<T>, SyntaxError> {
    match array.next_entry(d)? {
        Some(value) => {
            e.push_key(KeyKind::Array(index));
            let r = T::deserialize(value, d, e);
            e.pop_key();
            r
        }
        None => Ok(None),
    }
}

impl<'s, E: ErrorContext<'s>> Deserialize<'s, E> for ComplexC {
    fn deserialize(value: ValueDeserializer, d: &mut Deserializer<'s>, e: &mut E) -> Result<Option<Self>, SyntaxError> {
        match value {
            ValueDeserializer::Null => Ok(Some(ComplexC)),
            other => {
                reject(other, d, e, JSONType::Null)?;
                Ok(None)
            }
        }
    }
}

impl<'s, E: ErrorContext<'s>> Deserialize<'s, E> for ComplexB {
    fn deserialize(value: ValueDeserializer, d: &mut Deserializer<'s>, e: &mut E) -> Result<Option<Self>, SyntaxError> {
        match value {
            ValueDeserializer::Array(mut array) => {
                let a = element::<String, E>(&mut array, d, e, 0)?;
                let b = element::<u8, E>(&mut array, d, e, 1)?;
                let c = element::<String, E>(&mut array, d, e, 2)?;
                array.close(d)?;
                Ok(match (a, b, c) {
                    (Some(a), Some(b), Some(c)) => Some(ComplexB(a, b, c)),
                    _ => None,
                })
            }
            other => {
                reject(other, d, e, JSONType::Array)?;
                Ok(None)
            }
        }
    }
}

impl<'s, E: ErrorContext<'s>> Deserialize<'s, E> for ComplexA<'s> {
    fn deserialize(value: ValueDeserializer, d: &mut Deserializer<'s>, e: &mut E) -> Result<Option<Self>, SyntaxError> {
        match value {
            ValueDeserializer::Null => Ok(Some(ComplexA::ThisIsAVariant)),
            ValueDeserializer::Array(mut array) => {
                let a = element::<Cow<'s, str>, E>(&mut array, d, e, 0)?;
                let b = element::<u32, E>(&mut array, d, e, 1)?;
                array.close(d)?;
                Ok(match (a, b) {
                    (Some(a), Some(b)) => Some(ComplexA::ThisIsAlsoAVariant(a, b)),
                    _ => None,
                })
            }
            ValueDeserializer::Object(mut object) => {
                let mut minecraft = FieldSlot::new();
                let mut beds = FieldSlot::new();
                let mut together = FieldSlot::new();
                while let Some(field) = object.next_entry(d)? {
                    let (name, value) = field.accept(d)?;
                    e.push_key(KeyKind::Object(name.clone()));
                    let r = match &*name {
                        "minecraft" => i64::deserialize(value, d, e).map(|v| minecraft.fill(v)),
                        "beds" => String::deserialize(value, d, e).map(|v| beds.fill(v)),
                        "together" => <&str>::deserialize(value, d, e).map(|v| together.fill(v)),
                        _ => value.skip(d),
                    };
                    e.pop_key();
                    r?;
                }
                object.close(d)?;
                let all_present = minecraft.is_present() && beds.is_present() && together.is_present();
                let all_seen = minecraft.is_seen() && beds.is_seen() && together.is_seen();
                if finish_record(all_present, all_seen, e) {
                    Ok(Some(ComplexA::IfYouHaveMoreCreativeNamesPleaseMakeAPullRequest {
                        minecraft: minecraft.take().unwrap(),
                        beds: beds.take().unwrap(),
                        together: together.take().unwrap(),
                    }))
                } else {
                    Ok(None)
                }
            }
            other => {
                reject(other, d, e, JSONType::Object)?;
                Ok(None)
            }
        }
    }
}

impl<'s, E: ErrorContext<'s>> Deserialize<'s, E> for Complex<'s> {
    fn deserialize(value: ValueDeserializer, d: &mut Deserializer<'s>, e: &mut E) -> Result<Option<Self>, SyntaxError> {
        match value {
            ValueDeserializer::Object(mut object) => {
                let mut what_if = FieldSlot::new();
                let mut we_put = FieldSlot::new();
                let mut our = FieldSlot::new();
                while let Some(field) = object.next_entry(d)? {
                    let (name, value) = field.accept(d)?;
                    e.push_key(KeyKind::Object(name.clone()));
                    let r = match &*name {
                        "what_if" => ComplexA::deserialize(value, d, e).map(|v| what_if.fill(v)),
                        "we_put" => ComplexB::deserialize(value, d, e).map(|v| we_put.fill(v)),
                        "our" => ComplexC::deserialize(value, d, e).map(|v| our.fill(v)),
                        _ => value.skip(d),
                    };
                    e.pop_key();
                    r?;
                }
                object.close(d)?;
                let all_present = what_if.is_present() && we_put.is_present() && our.is_present();
                let all_seen = what_if.is_seen() && we_put.is_seen() && our.is_seen();
                if finish_record(all_present, all_seen, e) {
                    Ok(Some(Complex {
                        what_if: what_if.take().unwrap(),
                        we_put: we_put.take().unwrap(),
                        our: our.take().unwrap(),
                    }))
                } else {
                    Ok(None)
                }
            }
            other => {
                reject(other, d, e, JSONType::Object)?;
                Ok(None)
            }
        }
    }
}

fn we_put() -> ComplexB {
    ComplexB("this is data".into(), 7, "big data".into())
}

#[test]
fn complex_1() {
    let (value, reports) = parse::<Complex>(
        "{\"what_if\":null,\"we_put\":[\"this is data\",7,\"big data\"],\"our\":null}",
    );
    assert_eq!(value, Some(Complex { what_if: ComplexA::ThisIsAVariant, we_put: we_put(), our: ComplexC }));
    assert!(reports.is_empty());
}

#[test]
fn complex_2() {
    let (value, _) = parse::<Complex>(
        "{\"what_if\":[\"such parse\",578924],\"we_put\":[\"this is data\",7,\"big data\"],\"our\":null}",
    );
    let value = value.unwrap();
    assert!(matches!(value.what_if, ComplexA::ThisIsAlsoAVariant(Cow::Borrowed("such parse"), 578924)));
}

#[test]
fn complex_3() {
    let (value, _) = parse::<Complex>(
        "{\"what_if\":[\"much\\nwow\",578924],\"we_put\":[\"this is data\",7,\"big data\"],\"our\":null}",
    );
    let value = value.unwrap();
    assert!(matches!(value.what_if, ComplexA::ThisIsAlsoAVariant(Cow::Owned(ref s), 578924) if s == "much\nwow"));
}

#[test]
fn complex_5() {
    let (value, reports) = parse::<Complex>(
        "{\"what_if\":{\"beds\":\"i hate making\\n\\t\\rtest data\\b\",\"together\":\"it's finally over\",\"minecraft\":-4839855329580},\"we_put\":[\"this is data\",7,\"big data\"],\"our\":null}",
    );
    assert_eq!(
        value,
        Some(Complex {
            what_if: ComplexA::IfYouHaveMoreCreativeNamesPleaseMakeAPullRequest {
                minecraft: -4839855329580,
                beds: "i hate making\n\t\rtest data\u{8}".into(),
                together: "it's finally over",
            },
            we_put: we_put(),
            our: ComplexC,
        })
    );
    assert!(reports.is_empty());
}

#[test]
fn record_with_missing_field_is_reported() {
    let (value, reports) = parse::<Complex>("{\"what_if\":null,\"our\":null,\"extra\":[1,{}]}");
    assert_eq!(value, None);
    assert_eq!(reports, vec![("missing fields".to_string(), vec![])]);
}

#[test]
fn record_with_failed_field_is_not_missing() {
    let (value, reports) = parse::<Complex>(
        "{\"what_if\":null,\"we_put\":[\"a\",700,\"b\"],\"our\":null}",
    );
    assert_eq!(value, None);
    assert_eq!(reports.len(), 1);
    assert_eq!(
        reports[0].1,
        vec![KeyKind::Object(Cow::Borrowed("we_put")), KeyKind::Array(1)]
    );
}

/// A context of the caller's own: it keeps each message with the path.
#[derive(Default)]
struct Errors<'s> {
    path: Vec<KeyKind<'s>>,
    errors: Vec<(String, Vec<KeyKind<'s>>)>,
}

impl<'s> ErrorContext<'s> for Errors<'s> {
    fn report_unknown(&mut self, message: String) {
        self.errors.push((message, self.path.iter().map(|k| k.duplicate()).collect()));
    }

    fn push_key(&mut self, key: KeyKind<'s>) {
        self.path.push(key);
    }

    fn pop_key(&mut self) {
        self.path.pop();
    }
}

#[test]
fn caller_context_gets_reports_and_paths() {
    let (result, errors) = from_str_default::<Vec<Option<u8>>, Errors>("[null, 1, -5, [2]]");
    assert_eq!(result.unwrap(), Some(vec![None, Some(1)]));
    assert!(errors.path.is_empty());
    assert_eq!(errors.errors.len(), 2);
    assert_eq!(errors.errors[0].1, vec![KeyKind::Array(2)]);
    assert_eq!(errors.errors[1].0, "expected a number, found an array");
    assert_eq!(errors.errors[1].1, vec![KeyKind::Array(3)]);
}
