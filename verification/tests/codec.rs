use uffi::Dec;
use uffi::Value;

fn dec(neg: bool, digits: Vec<u8>, exp: i64) -> Value {
    Value::Float(Dec { neg, digits, exp })
}

#[test]
fn decode_number_integer() {
    assert_eq!(Value::from_json_value("3"), Some(Value::Integer(3)));
}

#[test]
fn decode_number_with_zero_fraction_is_float() {
    assert_eq!(Value::from_json_value("3.0"), Some(dec(false, vec![3], 0)));
}

#[test]
fn decode_number_with_fraction_is_float() {
    assert_eq!(Value::from_json_value("3.5"), Some(dec(false, vec![3, 5], -1)));
}

#[test]
fn decode_string_spelling_integer() {
    assert_eq!(Value::from_json_value("\"42\""), Some(Value::Integer(42)));
}

#[test]
fn decode_string_spelling_float() {
    assert_eq!(Value::from_json_value("\"4.2\""), Some(dec(false, vec![4, 2], -1)));
}

#[test]
fn decode_plain_string_stays_string() {
    assert_eq!(
        Value::from_json_value("\"abc\""),
        Some(Value::String(String::from("abc")))
    );
}

#[test]
fn decode_object_keeps_entry_order() {
    let got = Value::from_json_value("{\"a\": 1, \"b\": \"x\"}");
    let want = Value::Dictionary(vec![
        (String::from("a"), Value::Integer(1)),
        (String::from("b"), Value::String(String::from("x"))),
    ]);
    assert_eq!(got, Some(want));
}

#[test]
fn decode_array_keeps_order() {
    let got = Value::from_json_value("[1, \"x\", true, null]");
    let want = Value::List(vec![
        Value::Integer(1),
        Value::String(String::from("x")),
        Value::Boolean(true),
        Value::Null,
    ]);
    assert_eq!(got, Some(want));
}

#[test]
fn decode_negative_and_below_one() {
    assert_eq!(Value::from_json_value("-7"), Some(Value::Integer(-7)));
    assert_eq!(Value::from_json_value("-0.25"), Some(dec(true, vec![2, 5], -2)));
    assert_eq!(Value::from_json_value("0.001"), Some(dec(false, vec![1], -3)));
}

#[test]
fn decode_integer_bounds() {
    assert_eq!(
        Value::from_json_value("9223372036854775807"),
        Some(Value::Integer(i64::MAX))
    );
    assert_eq!(
        Value::from_json_value("-9223372036854775808"),
        Some(Value::Integer(i64::MIN))
    );
    assert_eq!(Value::from_json_value("9223372036854775808"), None);
}

#[test]
fn decode_rejects_malformed_text() {
    assert_eq!(Value::from_json_value(""), None);
    assert_eq!(Value::from_json_value("abc"), None);
    assert_eq!(Value::from_json_value("{"), None);
    assert_eq!(Value::from_json_value("[1, 2"), None);
    assert_eq!(Value::from_json_value("1 2"), None);
    assert_eq!(Value::from_json_value("3."), None);
    assert_eq!(Value::from_json_value("3e"), None);
    assert_eq!(Value::from_json_value("1e999999999999999999999"), None);
}

#[test]
fn decode_accepts_whitespace_and_escapes() {
    assert_eq!(Value::from_json_value("  3\n"), Some(Value::Integer(3)));
    assert_eq!(
        Value::from_json_value("\"a\\nb\""),
        Some(Value::String(String::from("a\nb")))
    );
    assert_eq!(
        Value::from_json_value("[ 1 , 2 ]"),
        Some(Value::List(vec![Value::Integer(1), Value::Integer(2)]))
    );
}

#[test]
fn decode_accepts_trailing_separator() {
    assert_eq!(
        Value::from_json_value("[1, 2, ]"),
        Some(Value::List(vec![Value::Integer(1), Value::Integer(2)]))
    );
    assert_eq!(
        Value::from_json_value("{\"a\": 1, }"),
        Some(Value::Dictionary(vec![(String::from("a"), Value::Integer(1))]))
    );
}

#[test]
fn encode_scalars() {
    assert_eq!(Value::Integer(77).to_json(), "77");
    assert_eq!(Value::Integer(-5).to_json(), "-5");
    assert_eq!(Value::Boolean(true).to_json(), "true");
    assert_eq!(Value::Boolean(false).to_json(), "false");
    assert_eq!(Value::Null.to_json(), "null");
    assert_eq!(Value::String(String::from("hi")).to_json(), "\"hi\"");
}

#[test]
fn encode_floats() {
    assert_eq!(dec(false, vec![4, 2], -1).to_json(), "4.2");
    assert_eq!(dec(true, vec![2, 5], -2).to_json(), "-0.25");
    assert_eq!(dec(false, vec![1], -3).to_json(), "0.001");
    assert_eq!(dec(false, vec![3], 2).to_json(), "300");
    assert_eq!(dec(false, vec![], 0).to_json(), "0");
}

#[test]
fn encode_composites_with_trailing_separator() {
    let d = Value::Dictionary(vec![
        (String::from("a"), Value::Integer(1)),
        (String::from("b"), Value::String(String::from("x"))),
    ]);
    assert_eq!(d.to_json(), "{\"a\": 1, \"b\": \"x\", }");
    let l = Value::List(vec![Value::Integer(1), Value::Integer(2)]);
    assert_eq!(l.to_json(), "[1, 2, ]");
    assert_eq!(Value::List(vec![]).to_json(), "[]");
    assert_eq!(Value::Dictionary(vec![]).to_json(), "{}");
}

#[test]
fn as_json_builds_argument_array() {
    let args = [Value::Integer(1), Value::String(String::from("x"))];
    assert_eq!(Value::as_json(&args), "[1, \"x\", ]");
    assert_eq!(Value::as_json(&[]), "[]");
}

#[test]
fn round_trip_nested_value() {
    let v = Value::Dictionary(vec![
        (String::from("name"), Value::String(String::from("watt"))),
        (String::from("count"), Value::Integer(3)),
        (String::from("ratio"), dec(false, vec![4, 2], -1)),
        (
            String::from("flags"),
            Value::List(vec![Value::Boolean(false), Value::Null]),
        ),
    ]);
    let text = v.to_json();
    assert_eq!(Value::from_json_value(&text), Some(v));
}

#[test]
fn round_trip_loses_numeral_shaped_string() {
    let v = Value::String(String::from("42"));
    let text = v.to_json();
    assert_eq!(Value::from_json_value(&text), Some(Value::Integer(42)));
}

#[test]
fn round_trip_loses_integer_valued_float() {
    let v = dec(false, vec![3], 0);
    let text = v.to_json();
    assert_eq!(text, "3");
    assert_eq!(Value::from_json_value(&text), Some(Value::Integer(3)));
}

#[test]
fn decode_zero_fraction_collapses_to_canonical_zero() {
    assert_eq!(
        Value::from_json_value("0.0"),
        Some(dec(false, vec![], 0))
    );
    assert_eq!(dec(false, vec![], 0).to_json(), "0");
}

#[test]
fn decode_every_simple_escape() {
    assert_eq!(
        Value::from_json_value("\"q\\\" b\\\\ s\\/ c\\b f\\f n\\n r\\r t\\t\""),
        Some(Value::String(String::from(
            "q\" b\\ s/ c\u{8} f\u{c} n\n r\r t\t"
        )))
    );
    assert_eq!(Value::from_json_value("\"bad \\x\""), None);
    assert_eq!(Value::from_json_value("\"open"), None);
}

#[test]
fn decode_unicode_escapes() {
    assert_eq!(
        Value::from_json_value("\"A\\u0042C\""),
        Some(Value::String(String::from("ABC")))
    );
    assert_eq!(
        Value::from_json_value("\"h\\u00e9llo\""),
        Some(Value::String(String::from("h\u{e9}llo")))
    );
    // a surrogate pair carries one scalar beyond the basic plane
    assert_eq!(
        Value::from_json_value("\"\\uD83D\\uDE00\""),
        Some(Value::String(String::from("\u{1F600}")))
    );
    // a lone surrogate is not a scalar
    assert_eq!(Value::from_json_value("\"\\uD83D\""), None);
    assert_eq!(Value::from_json_value("\"\\uDE00\""), None);
    assert_eq!(Value::from_json_value("\"\\u12\""), None);
}

#[test]
fn decode_numbers_with_exponents() {
    assert_eq!(Value::from_json_value("1e5"), Some(dec(false, vec![1], 5)));
    assert_eq!(Value::from_json_value("1E+2"), Some(dec(false, vec![1], 2)));
    assert_eq!(Value::from_json_value("2.5e-3"), Some(dec(false, vec![2, 5], -4)));
    assert_eq!(Value::from_json_value("-12e1"), Some(dec(true, vec![1, 2], 1)));
    assert_eq!(Value::from_json_value("1.0e2"), Some(dec(false, vec![1], 2)));
}

#[test]
fn decode_strings_spelling_exponent_floats() {
    assert_eq!(Value::from_json_value("\"1e5\""), Some(dec(false, vec![1], 5)));
    assert_eq!(Value::from_json_value("\"2.5e-3\""), Some(dec(false, vec![2, 5], -4)));
    assert_eq!(Value::from_json_value("\"+1E2\""), Some(dec(false, vec![1], 2)));
    assert_eq!(
        Value::from_json_value("\"1e\""),
        Some(Value::String(String::from("1e")))
    );
    assert_eq!(
        Value::from_json_value("\"inf\""),
        Some(Value::String(String::from("inf")))
    );
}

#[test]
fn decode_nested_structures() {
    let got = Value::from_json_value("{\"xs\": [1, {\"y\": 2}], \"z\": [[]]}");
    let want = Value::Dictionary(vec![
        (
            String::from("xs"),
            Value::List(vec![
                Value::Integer(1),
                Value::Dictionary(vec![(String::from("y"), Value::Integer(2))]),
            ]),
        ),
        (String::from("z"), Value::List(vec![Value::List(vec![])])),
    ]);
    assert_eq!(got, Some(want));
}

#[test]
fn decode_string_with_sign_and_leading_zeros() {
    assert_eq!(Value::from_json_value("\"+42\""), Some(Value::Integer(42)));
    assert_eq!(Value::from_json_value("\"042\""), Some(Value::Integer(42)));
    assert_eq!(Value::from_json_value("\".5\""), Some(dec(false, vec![5], -1)));
    assert_eq!(Value::from_json_value("\"5.\""), Some(dec(false, vec![5], 0)));
    assert_eq!(
        Value::from_json_value("\"1.2.3\""),
        Some(Value::String(String::from("1.2.3")))
    );
    assert_eq!(
        Value::from_json_value("\"+\""),
        Some(Value::String(String::from("+")))
    );
}
