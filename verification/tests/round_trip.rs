use json_engine::{JsonNumber, JsonValue, Numerals};

fn read_number(text: &str) -> Option<JsonNumber> {
    match text.parse::<f64>() {
        Ok(x) => Some(JsonNumber { bits: x.to_bits(), text: format!("{}", x) }),
        Err(_) => None,
    }
}

fn number(x: f64) -> JsonValue {
    JsonValue::Number(JsonNumber { bits: x.to_bits(), text: format!("{}", x) })
}

fn text(s: &str) -> JsonValue {
    JsonValue::String(s.to_string())
}

fn again(value: &JsonValue) -> Option<JsonValue> {
    JsonValue::parse(value.stringify().into_bytes(), &Numerals::new(read_number))
}

#[test]
fn scalars_come_back() {
    for value in vec![
        JsonValue::Null,
        JsonValue::Boolean(true),
        JsonValue::Boolean(false),
        number(0.0),
        number(-0.0),
        number(1.5),
        number(-1e300),
        number(5e-324),
        number(f64::INFINITY),
        number(f64::NEG_INFINITY),
        number(f64::NAN),
        text(""),
        text("plain"),
        text("\"\\/\u{8}\u{c}\n\r\t"),
        text("\u{0}\u{1}\u{1f} {}[]:,"),
        text("h\u{e9}llo \u{4e2d}\u{1F600}"),
    ] {
        assert_eq!(again(&value), Some(value));
    }
}

#[test]
fn containers_come_back() {
    let value = JsonValue::Object(vec![
        ("".to_string(), JsonValue::Array(vec![])),
        ("a b".to_string(), JsonValue::Array(vec![number(1.0), number(2.0), text("3")])),
        (
            "n\"e\\st".to_string(),
            JsonValue::Object(vec![
                ("x".to_string(), JsonValue::Array(vec![JsonValue::Array(vec![JsonValue::Array(vec![])])])),
                ("y".to_string(), JsonValue::Object(vec![])),
                ("z".to_string(), JsonValue::Array(vec![JsonValue::Object(vec![]), JsonValue::Null])),
            ]),
        ),
        ("last".to_string(), JsonValue::Array(vec![JsonValue::Array(vec![number(1.0)]), number(2.0)])),
    ]);
    assert_eq!(again(&value), Some(value));
}

#[test]
fn a_key_twice_does_not_come_back() {
    let value = JsonValue::Object(vec![
        ("a".to_string(), number(1.0)),
        ("a".to_string(), number(2.0)),
    ]);
    assert_eq!(again(&value), None);
}

#[test]
fn a_number_that_is_not_read_again_does_not_come_back() {
    let odd_nan = JsonValue::Number(JsonNumber { bits: 0x7FF8_0000_0000_0001, text: "NaN".to_string() });
    assert_eq!(again(&odd_nan), Some(number(f64::NAN)));
    assert_ne!(again(&odd_nan), Some(odd_nan));
}
