use json_engine::JsonToken;
use json_engine::JsonToken::{
    BeginArray, BeginObject, EndArray, EndKey, EndObject, EndValue, LiteralValue, QuoteMark,
    QuotedValue, TerminalError,
};

fn tokens(text: &[u8]) -> Vec<JsonToken> {
    JsonToken::to_json_tokens(text.to_vec())
}

#[test]
fn empty_input_has_no_tokens() {
    assert_eq!(tokens(b""), vec![]);
}

#[test]
fn structural_bytes_and_whitespace() {
    assert_eq!(
        tokens(b" { \"a\" :\t[ 1 ,\r\n 2 ] } "),
        vec![
            BeginObject,
            QuoteMark,
            QuotedValue(b'a'),
            QuoteMark,
            EndKey,
            BeginArray,
            LiteralValue(b'1'),
            EndValue,
            LiteralValue(b'2'),
            EndArray,
            EndObject,
        ]
    );
}

#[test]
fn whitespace_and_structure_inside_quotes_are_content() {
    assert_eq!(
        tokens(b"\"a {,:}]\""),
        vec![
            QuoteMark,
            QuotedValue(b'a'),
            QuotedValue(b' '),
            QuotedValue(b'{'),
            QuotedValue(b','),
            QuotedValue(b':'),
            QuotedValue(b'}'),
            QuotedValue(b']'),
            QuoteMark,
        ]
    );
}

#[test]
fn one_letter_escapes_inside_quotes() {
    assert_eq!(
        tokens(b"\"\\\"\\\\\\/\\b\\f\\n\\r\\t\""),
        vec![
            QuoteMark,
            QuotedValue(0x22),
            QuotedValue(0x5C),
            QuotedValue(0x2F),
            QuotedValue(0x08),
            QuotedValue(0x0C),
            QuotedValue(0x0A),
            QuotedValue(0x0D),
            QuotedValue(0x09),
            QuoteMark,
        ]
    );
}

#[test]
fn one_letter_escapes_outside_quotes() {
    assert_eq!(
        tokens(b"\\\"\\\\\\/\\b\\f\\n\\r\\t"),
        vec![
            LiteralValue(0x22),
            LiteralValue(0x5C),
            LiteralValue(0x2F),
            LiteralValue(0x08),
            LiteralValue(0x0C),
            LiteralValue(0x0A),
            LiteralValue(0x0D),
            LiteralValue(0x09),
        ]
    );
}

#[test]
fn escaped_quote_does_not_close_the_string() {
    assert_eq!(
        tokens(b"\"a\\\"b\""),
        vec![QuoteMark, QuotedValue(b'a'), QuotedValue(0x22), QuotedValue(b'b'), QuoteMark]
    );
}

#[test]
fn unicode_escape_gives_high_and_low_byte() {
    assert_eq!(
        tokens(b"\"\\u0041\""),
        vec![QuoteMark, QuotedValue(0x00), QuotedValue(0x41), QuoteMark]
    );
    assert_eq!(
        tokens(b"\"\\u4e2d\""),
        vec![QuoteMark, QuotedValue(0x4E), QuotedValue(0x2D), QuoteMark]
    );
    assert_eq!(tokens(b"\\uFFff1"), vec![LiteralValue(0xFF), LiteralValue(0xFF), LiteralValue(b'1')]);
}

#[test]
fn hexadecimal_digits_in_either_case() {
    assert_eq!(tokens(b"\\uaBcD"), vec![LiteralValue(0xAB), LiteralValue(0xCD)]);
    assert_eq!(tokens(b"\\u09fA"), vec![LiteralValue(0x09), LiteralValue(0xFA)]);
}

#[test]
fn unknown_escape_ends_the_tokens() {
    assert_eq!(
        tokens(b"[1,\"a\\x\",2]"),
        vec![BeginArray, LiteralValue(b'1'), EndValue, QuoteMark, QuotedValue(b'a'), TerminalError]
    );
    assert_eq!(tokens(b"1\\q2"), vec![LiteralValue(b'1'), TerminalError]);
}

#[test]
fn short_unicode_escape_ends_the_tokens() {
    assert_eq!(tokens(b"\"\\u004"), vec![QuoteMark, TerminalError]);
    assert_eq!(tokens(b"\"\\u"), vec![QuoteMark, TerminalError]);
    assert_eq!(tokens(b"\\u12\""), vec![TerminalError]);
}

#[test]
fn bad_hexadecimal_digit_ends_the_tokens() {
    assert_eq!(tokens(b"\"\\u00g1\"1"), vec![QuoteMark, TerminalError]);
    assert_eq!(tokens(b"\"\\uzzzz\"1"), vec![QuoteMark, TerminalError]);
    assert_eq!(tokens(b"7\\u 0411"), vec![LiteralValue(b'7'), TerminalError]);
}

#[test]
fn backslash_as_last_byte_ends_the_tokens() {
    assert_eq!(tokens(b"1\\"), vec![LiteralValue(b'1'), TerminalError]);
    assert_eq!(tokens(b"\"a\\"), vec![QuoteMark, QuotedValue(b'a'), TerminalError]);
    assert_eq!(tokens(b"\\"), vec![TerminalError]);
}

#[test]
fn bytes_above_ascii_are_content() {
    assert_eq!(
        tokens(&[0x22, 0xC3, 0xA9, 0x22, 0xFF]),
        vec![QuoteMark, QuotedValue(0xC3), QuotedValue(0xA9), QuoteMark, LiteralValue(0xFF)]
    );
}
