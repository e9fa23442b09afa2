use json_engine::{JsonNumber, JsonValue};

fn number(x: f64) -> JsonValue {
    JsonValue::Number(JsonNumber { bits: x.to_bits(), text: format!("{}", x) })
}

fn text(s: &str) -> JsonValue {
    JsonValue::String(s.to_string())
}

#[test]
fn scalars() {
    assert_eq!(JsonValue::Null.stringify(), "null");
    assert_eq!(JsonValue::Boolean(true).stringify(), "true");
    assert_eq!(JsonValue::Boolean(false).stringify(), "false");
    assert_eq!(number(5.0).stringify(), "5");
    assert_eq!(number(-0.25).stringify(), "-0.25");
    assert_eq!(text("abc").stringify(), "\"abc\"");
}

#[test]
fn number_is_written_by_its_rendering() {
    let n = JsonValue::Number(JsonNumber { bits: 0, text: "1e-7".to_string() });
    assert_eq!(n.stringify(), "1e-7");
}

#[test]
fn string_escapes() {
    assert_eq!(
        JsonValue::stringify_actual_string("\"\\/\u{8}\u{c}\n\r\t"),
        "\"\\\"\\\\\\/\\b\\f\\n\\r\\t\""
    );
    assert_eq!(text("a\"b").stringify(), "\"a\\\"b\"");
}

#[test]
fn other_bytes_are_not_escaped() {
    assert_eq!(JsonValue::stringify_actual_string("\u{1}\u{1f}\u{7f}"), "\"\u{1}\u{1f}\u{7f}\"");
    assert_eq!(JsonValue::stringify_actual_string("h\u{e9}\u{4e2d}"), "\"h\u{e9}\u{4e2d}\"");
    assert_eq!(JsonValue::stringify_actual_string(""), "\"\"");
}

#[test]
fn arrays() {
    assert_eq!(JsonValue::Array(vec![]).stringify(), "[]");
    assert_eq!(JsonValue::Array(vec![number(1.0)]).stringify(), "[1]");
    assert_eq!(
        JsonValue::Array(vec![number(1.0), text("a"), JsonValue::Null, JsonValue::Array(vec![])])
            .stringify(),
        "[1,\"a\",null,[]]"
    );
}

#[test]
fn objects() {
    assert_eq!(JsonValue::Object(vec![]).stringify(), "{}");
    assert_eq!(
        JsonValue::Object(vec![("a".to_string(), number(1.0))]).stringify(),
        "{\"a\": 1}"
    );
    assert_eq!(
        JsonValue::Object(vec![
            ("b".to_string(), JsonValue::Boolean(false)),
            ("a\n".to_string(), JsonValue::Object(vec![("c".to_string(), JsonValue::Array(vec![text("/")]))])),
        ])
        .stringify(),
        "{\"b\": false,\"a\\n\": {\"c\": [\"\\/\"]}}"
    );
}
