use json_engine::{JsonNumber, JsonParserUtilities, JsonToken, JsonValue, Numerals};

fn read_number(text: &str) -> Option<JsonNumber> {
    match text.parse::<f64>() {
        Ok(x) => Some(JsonNumber { bits: x.to_bits(), text: format!("{}", x) }),
        Err(_) => None,
    }
}

fn number(x: f64) -> JsonValue {
    JsonValue::Number(JsonNumber { bits: x.to_bits(), text: format!("{}", x) })
}

fn text(s: &str) -> JsonValue {
    JsonValue::String(s.to_string())
}

fn parse(text: &str) -> Option<JsonValue> {
    JsonValue::parse(text.as_bytes().to_vec(), &Numerals::new(read_number))
}

#[test]
fn empty_object_and_empty_array() {
    assert_eq!(parse("{}"), Some(JsonValue::Object(vec![])));
    assert_eq!(parse("[]"), Some(JsonValue::Array(vec![])));
}

#[test]
fn duplicate_key_is_rejected() {
    assert_eq!(parse("{\"a\":1,\"a\":2}"), None);
    assert_eq!(parse("[{\"a\":1,\"b\":2,\"a\":3}]"), None);
    assert_eq!(parse("{\"x\":{\"a\":1,\"a\":1}}"), None);
}

#[test]
fn same_key_in_different_objects_is_accepted() {
    assert_eq!(
        parse("[{\"a\":1},{\"a\":2}]"),
        Some(JsonValue::Array(vec![
            JsonValue::Object(vec![("a".to_string(), number(1.0))]),
            JsonValue::Object(vec![("a".to_string(), number(2.0))]),
        ]))
    );
}

#[test]
fn escaped_line_feed() {
    match parse("\"\\n\"") {
        Some(JsonValue::String(s)) => assert_eq!(s.as_bytes(), &[0x0Au8]),
        other => panic!("{:?}", other),
    }
}

#[test]
fn unicode_escape_is_two_raw_bytes() {
    match parse("\"\\u0041\"") {
        Some(JsonValue::String(s)) => {
            assert_eq!(s.as_bytes(), &[0x00u8, 0x41u8]);
            assert!(s.ends_with("A"));
        },
        other => panic!("{:?}", other),
    }
    match parse("\"\\u4e2d\"") {
        Some(JsonValue::String(s)) => assert_eq!(s.as_bytes(), &[0x4Eu8, 0x2Du8]),
        other => panic!("{:?}", other),
    }
}

#[test]
fn unicode_escape_that_is_no_utf8_fails() {
    assert_eq!(parse("\"\\u00e9\""), None);
    assert_eq!(parse("\"\\uffff\""), None);
}

#[test]
fn words_in_any_case() {
    assert_eq!(parse("true"), Some(JsonValue::Boolean(true)));
    assert_eq!(parse("TRUE"), Some(JsonValue::Boolean(true)));
    assert_eq!(parse("False"), Some(JsonValue::Boolean(false)));
    assert_eq!(parse("nUlL"), Some(JsonValue::Null));
}

#[test]
fn numbers() {
    assert_eq!(parse("0"), Some(number(0.0)));
    assert_eq!(parse("-12.5"), Some(number(-12.5)));
    assert_eq!(parse("1e3"), Some(number(1000.0)));
    assert_eq!(parse("1.50"), Some(number(1.5)));
    assert_eq!(parse(" 42 "), Some(number(42.0)));
}

#[test]
fn number_words_reach_the_reader_in_lower_case() {
    let only_lower = |word: &str| {
        if word == "1e3" {
            Some(JsonNumber { bits: 7, text: "seen".to_string() })
        } else {
            None
        }
    };
    assert_eq!(
        JsonValue::parse(b"1E3".to_vec(), &Numerals::new(only_lower)),
        Some(JsonValue::Number(JsonNumber { bits: 7, text: "seen".to_string() }))
    );
    assert_eq!(JsonValue::parse(b"1e4".to_vec(), &Numerals::new(only_lower)), None);
}

#[test]
fn bad_words_fail() {
    assert_eq!(parse("tru"), None);
    assert_eq!(parse("truee"), None);
    assert_eq!(parse("1x"), None);
    assert_eq!(parse("--1"), None);
    assert_eq!(JsonValue::parse(vec![0xFF], &Numerals::new(read_number)), None);
}

#[test]
fn strings_keep_utf8() {
    assert_eq!(parse("\"h\u{e9}llo \u{4e2d}\""), Some(text("h\u{e9}llo \u{4e2d}")));
    assert_eq!(parse("\"\""), Some(text("")));
}

#[test]
fn string_with_bad_utf8_fails() {
    assert_eq!(JsonValue::parse(vec![0x22, 0xC3, 0x22], &Numerals::new(read_number)), None);
}

#[test]
fn unclosed_string_fails() {
    assert_eq!(parse("\"abc"), None);
    assert_eq!(parse("\"abc\\"), None);
}

#[test]
fn nested_values() {
    assert_eq!(
        parse("{\"a\": [1, {\"b\": null}, \"x\"], \"c\": {\"d\": [[], [true]]}}"),
        Some(JsonValue::Object(vec![
            (
                "a".to_string(),
                JsonValue::Array(vec![
                    number(1.0),
                    JsonValue::Object(vec![("b".to_string(), JsonValue::Null)]),
                    text("x"),
                ]),
            ),
            (
                "c".to_string(),
                JsonValue::Object(vec![(
                    "d".to_string(),
                    JsonValue::Array(vec![
                        JsonValue::Array(vec![]),
                        JsonValue::Array(vec![JsonValue::Boolean(true)]),
                    ]),
                )]),
            ),
        ]))
    );
}

#[test]
fn members_keep_their_order() {
    assert_eq!(
        parse("{\"z\":1,\"a\":2,\"m\":3}"),
        Some(JsonValue::Object(vec![
            ("z".to_string(), number(1.0)),
            ("a".to_string(), number(2.0)),
            ("m".to_string(), number(3.0)),
        ]))
    );
}

#[test]
fn value_terminators_in_arrays_are_skipped() {
    let one = Some(JsonValue::Array(vec![number(1.0)]));
    assert_eq!(parse("[,,1,,]"), one);
    assert_eq!(parse("[1,]"), one);
    assert_eq!(
        parse("[1 2]"),
        Some(JsonValue::Array(vec![number(12.0)]))
    );
    assert_eq!(
        parse("[\"a\"\"b\"]"),
        Some(JsonValue::Array(vec![text("a"), text("b")]))
    );
}

#[test]
fn what_follows_the_first_value_is_ignored() {
    assert_eq!(parse("1]"), Some(number(1.0)));
    assert_eq!(parse("[] garbage"), Some(JsonValue::Array(vec![])));
    assert_eq!(parse("\"a\"\\x"), Some(text("a")));
    assert_eq!(parse("{}}"), Some(JsonValue::Object(vec![])));
}

#[test]
fn malformed_arrays_fail() {
    assert_eq!(parse("["), None);
    assert_eq!(parse("[1"), None);
    assert_eq!(parse("[1:2]"), None);
    assert_eq!(parse("[}"), None);
    assert_eq!(parse("[1,\\x]"), None);
}

#[test]
fn malformed_objects_fail() {
    assert_eq!(parse("{"), None);
    assert_eq!(parse("{\"a\"}"), None);
    assert_eq!(parse("{\"a\" 1}"), None);
    assert_eq!(parse("{\"a\":}"), None);
    assert_eq!(parse("{\"a\":1"), None);
    assert_eq!(parse("{a:1}"), None);
    assert_eq!(parse("{,}"), None);
    assert_eq!(parse("{\"a\":1,,\"b\":2}"), None);
    assert_eq!(parse("{\"a\":1 \"b\":2]"), None);
}

#[test]
fn object_takes_one_value_terminator_after_a_member() {
    assert_eq!(
        parse("{\"a\":1,}"),
        Some(JsonValue::Object(vec![("a".to_string(), number(1.0))]))
    );
    assert_eq!(
        parse("{\"a\":[1],\"b\":2}"),
        Some(JsonValue::Object(vec![
            ("a".to_string(), JsonValue::Array(vec![number(1.0)])),
            ("b".to_string(), number(2.0)),
        ]))
    );
}

#[test]
fn empty_and_unstartable_input_fails() {
    assert_eq!(parse(""), None);
    assert_eq!(parse("   "), None);
    assert_eq!(parse("]"), None);
    assert_eq!(parse("}"), None);
    assert_eq!(parse(":"), None);
    assert_eq!(parse(","), None);
    assert_eq!(parse("\\x"), None);
}

#[test]
fn parser_steps_give_the_next_index() {
    let tokens = JsonToken::to_json_tokens(b"[1,[2]],\"ab\" true".to_vec());
    assert_eq!(
        JsonParserUtilities::parse_value(&tokens, 0, &Numerals::new(read_number)),
        Some((
            JsonValue::Array(vec![number(1.0), JsonValue::Array(vec![number(2.0)])]),
            8
        ))
    );
    assert_eq!(
        JsonParserUtilities::parse_array(&tokens, 1, &Numerals::new(read_number)),
        Some((
            JsonValue::Array(vec![number(1.0), JsonValue::Array(vec![number(2.0)])]),
            8
        ))
    );
    assert_eq!(JsonParserUtilities::parse_quote(&tokens, 9), Some((text("ab"), 12)));
    assert_eq!(
        JsonParserUtilities::parse_literal(&tokens, 13, b't', &Numerals::new(read_number)),
        Some((JsonValue::Boolean(true), 16))
    );
    assert_eq!(JsonParserUtilities::parse_value(&tokens, 16, &Numerals::new(read_number)), None);
    assert_eq!(JsonParserUtilities::parse_literal(&tokens, 99, b'7', &Numerals::new(read_number)), Some((number(7.0), 99)));
    let members = JsonToken::to_json_tokens(b"\"k\":null}".to_vec());
    assert_eq!(
        JsonParserUtilities::parse_object(&members, 0, &Numerals::new(read_number)),
        Some((JsonValue::Object(vec![("k".to_string(), JsonValue::Null)]), 9))
    );
}
