use vstd::prelude::*;

verus! {

/// One unit of tokenized JSON text. A token carries at most one byte.
#[derive(Clone, Copy, Debug, PartialEq, Eq, Structural)]
pub enum JsonToken {
    /// `{`
    BeginObject,
    /// `}`
    EndObject,
    /// `[`
    BeginArray,
    /// `]`
    EndArray,
    /// `:`
    EndKey,
    /// `,`
    EndValue,
    /// `"`, opening or closing a quoted string
    QuoteMark,
    /// One byte between quote marks
    QuotedValue(u8),
    /// One byte outside quote marks
    LiteralValue(u8),
    /// The text could not be tokenized past this point
    TerminalError,
}

/// The byte that a one-letter escape stands for, if the letter is one of
/// `"`, `\`, `/`, `b`, `f`, `n`, `r`, `t`.
pub open spec fn escape_target(letter: u8) -> Option<u8> {
    if letter == 0x22 || letter == 0x5C || letter == 0x2F {
        Some(letter)
    } else if letter == 0x62 {
        Some(0x08u8)
    } else if letter == 0x66 {
        Some(0x0Cu8)
    } else if letter == 0x6E {
        Some(0x0Au8)
    } else if letter == 0x72 {
        Some(0x0Du8)
    } else if letter == 0x74 {
        Some(0x09u8)
    } else {
        None
    }
}

/// The value of a hexadecimal digit, in either case.
pub open spec fn hex_digit(digit: u8) -> Option<int> {
    if 48 <= digit <= 57 {
        Some(digit - 48)
    } else if 65 <= digit <= 70 {
        Some(digit - 55)
    } else if 97 <= digit <= 102 {
        Some(digit - 87)
    } else {
        None
    }
}

/// The 16-bit value written by four hexadecimal digits, most significant first.
pub open spec fn code_unit(d0: u8, d1: u8, d2: u8, d3: u8) -> Option<int> {
    match (hex_digit(d0), hex_digit(d1), hex_digit(d2), hex_digit(d3)) {
        (Some(a), Some(b), Some(c), Some(d)) => Some(((a * 16 + b) * 16 + c) * 16 + d),
        _ => None,
    }
}

/// A content token for `byte`: quoted inside a string, bare outside.
pub open spec fn content(in_quote: bool, byte: u8) -> JsonToken {
    if in_quote {
        JsonToken::QuotedValue(byte)
    } else {
        JsonToken::LiteralValue(byte)
    }
}

/// The token that a byte outside quotes and outside an escape gives, if any:
/// whitespace gives none, the six structural bytes and the quote give their
/// markers, every other byte is bare content. (The backslash is handled by
/// [`scan`] before this is asked.)
pub open spec fn plain_token(byte: u8) -> Option<JsonToken> {
    if byte == 0x20 || byte == 0x09 || byte == 0x0A || byte == 0x0D {
        None
    } else if byte == 0x7B {
        Some(JsonToken::BeginObject)
    } else if byte == 0x7D {
        Some(JsonToken::EndObject)
    } else if byte == 0x5B {
        Some(JsonToken::BeginArray)
    } else if byte == 0x5D {
        Some(JsonToken::EndArray)
    } else if byte == 0x3A {
        Some(JsonToken::EndKey)
    } else if byte == 0x2C {
        Some(JsonToken::EndValue)
    } else if byte == 0x22 {
        Some(JsonToken::QuoteMark)
    } else {
        Some(JsonToken::LiteralValue(byte))
    }
}

/// The tokens of `bytes` from index `at` on, for a tokenizer that is inside a
/// quoted string iff `in_quote` and has just read a backslash iff `in_escape`.
///
/// An escape `\uXXXX` gives two content tokens, the high and the low byte of
/// the 16-bit value. An unknown escape letter, a `\u` with fewer than four
/// bytes after it, or a digit that is not hexadecimal gives one
/// `TerminalError` and ends the tokens, and so does a backslash that is the
/// last byte.
pub open spec fn scan(bytes: Seq<u8>, at: int, in_quote: bool, in_escape: bool) -> Seq<JsonToken>
    decreases bytes.len() - at,
{
    if at < 0 || at >= bytes.len() {
        if in_escape {
            seq![JsonToken::TerminalError]
        } else {
            Seq::empty()
        }
    } else if in_escape {
        if bytes[at] == 0x75 {
            if at + 4 >= bytes.len() {
                seq![JsonToken::TerminalError]
            } else {
                match code_unit(bytes[at + 1], bytes[at + 2], bytes[at + 3], bytes[at + 4]) {
                    Some(v) => seq![content(in_quote, (v / 256) as u8), content(in_quote, (v % 256) as u8)]
                        + scan(bytes, at + 5, in_quote, false),
                    None => seq![JsonToken::TerminalError],
                }
            }
        } else {
            match escape_target(bytes[at]) {
                Some(byte) => seq![content(in_quote, byte)] + scan(bytes, at + 1, in_quote, false),
                None => seq![JsonToken::TerminalError],
            }
        }
    } else if bytes[at] == 0x5C {
        scan(bytes, at + 1, in_quote, true)
    } else if in_quote {
        if bytes[at] == 0x22 {
            seq![JsonToken::QuoteMark] + scan(bytes, at + 1, false, false)
        } else {
            seq![JsonToken::QuotedValue(bytes[at])] + scan(bytes, at + 1, true, false)
        }
    } else {
        match plain_token(bytes[at]) {
            None => scan(bytes, at + 1, false, false),
            Some(token) => seq![token] + scan(bytes, at + 1, token == JsonToken::QuoteMark, false),
        }
    }
}

/// The tokens of a whole text.
pub open spec fn tokens_of(bytes: Seq<u8>) -> Seq<JsonToken> {
    scan(bytes, 0, false, false)
}

fn escaped(letter: u8) -> (r: Option<u8>)
    ensures
        r == escape_target(letter),
{
    if letter == 0x22 || letter == 0x5C || letter == 0x2F {
        Some(letter)
    } else if letter == 0x62 {
        Some(0x08)
    } else if letter == 0x66 {
        Some(0x0C)
    } else if letter == 0x6E {
        Some(0x0A)
    } else if letter == 0x72 {
        Some(0x0D)
    } else if letter == 0x74 {
        Some(0x09)
    } else {
        None
    }
}

fn hex_value(digit: u8) -> (r: Option<u16>)
    ensures
        match r {
            Some(v) => hex_digit(digit) == Some(v as int) && v < 16,
            None => hex_digit(digit) is None,
        },
{
    if 48 <= digit && digit <= 57 {
        Some((digit - 48) as u16)
    } else if 65 <= digit && digit <= 70 {
        Some((digit - 55) as u16)
    } else if 97 <= digit && digit <= 102 {
        Some((digit - 87) as u16)
    } else {
        None
    }
}

fn hex_quad(d0: u8, d1: u8, d2: u8, d3: u8) -> (r: Option<u16>)
    ensures
        match r {
            Some(v) => code_unit(d0, d1, d2, d3) == Some(v as int),
            None => code_unit(d0, d1, d2, d3) is None,
        },
{
    match (hex_value(d0), hex_value(d1), hex_value(d2), hex_value(d3)) {
        (Some(a), Some(b), Some(c), Some(d)) => Some(((a * 16 + b) * 16 + c) * 16 + d),
        _ => None,
    }
}

fn content_token(in_quote: bool, byte: u8) -> (r: JsonToken)
    ensures
        r == content(in_quote, byte),
{
    if in_quote {
        JsonToken::QuotedValue(byte)
    } else {
        JsonToken::LiteralValue(byte)
    }
}

fn plain(byte: u8) -> (r: Option<JsonToken>)
    ensures
        r == plain_token(byte),
{
    if byte == 0x20 || byte == 0x09 || byte == 0x0A || byte == 0x0D {
        None
    } else if byte == 0x7B {
        Some(JsonToken::BeginObject)
    } else if byte == 0x7D {
        Some(JsonToken::EndObject)
    } else if byte == 0x5B {
        Some(JsonToken::BeginArray)
    } else if byte == 0x5D {
        Some(JsonToken::EndArray)
    } else if byte == 0x3A {
        Some(JsonToken::EndKey)
    } else if byte == 0x2C {
        Some(JsonToken::EndValue)
    } else if byte == 0x22 {
        Some(JsonToken::QuoteMark)
    } else {
        Some(JsonToken::LiteralValue(byte))
    }
}

proof fn lemma_emitted(done: Seq<JsonToken>, token: JsonToken, rest: Seq<JsonToken>)
    ensures
        done.push(token) + rest == done + (seq![token] + rest),
{
    assert(done.push(token) + rest =~= done + (seq![token] + rest));
}

impl JsonToken {
    /// Tokenizes `input` in one pass from left to right.
    pub fn to_json_tokens(input: Vec<u8>) -> (output: Vec<JsonToken>)
        ensures
            output@ == tokens_of(input@),
    {
        let mut in_quote = false;
        let mut in_escape = false;
        let mut output: Vec<JsonToken> = Vec::new();
        let mut i: usize = 0;
        while i < input.len()
            invariant
                i <= input.len(),
                output@ + scan(input@, i as int, in_quote, in_escape) == tokens_of(input@),
            decreases input.len() - i,
        {
            let byte: u8 = input[i];
            let ghost done = output@;
            if in_escape {
                if byte == 0x75 {
                    if input.len() - i <= 4 {
                        output.push(JsonToken::TerminalError);
                        assert(output@ =~= done + seq![JsonToken::TerminalError]);
                        return output;
                    }
                    match hex_quad(input[i + 1], input[i + 2], input[i + 3], input[i + 4]) {
                        Some(v) => {
                            let high: u8 = (v / 256) as u8;
                            let low: u8 = (v % 256) as u8;
                            output.push(content_token(in_quote, high));
                            output.push(content_token(in_quote, low));
                            assert(output@ + scan(input@, i + 5, in_quote, false) =~= done + (seq![
                                content(in_quote, high),
                                content(in_quote, low),
                            ] + scan(input@, i + 5, in_quote, false)));
                            i += 5;
                        },
                        None => {
                            output.push(JsonToken::TerminalError);
                            assert(output@ =~= done + seq![JsonToken::TerminalError]);
                            return output;
                        },
                    }
                } else {
                    match escaped(byte) {
                        Some(target) => {
                            output.push(content_token(in_quote, target));
                            proof {
                                lemma_emitted(
                                    done,
                                    content(in_quote, target),
                                    scan(input@, i + 1, in_quote, false),
                                );
                            }
                            i += 1;
                        },
                        None => {
                            output.push(JsonToken::TerminalError);
                            assert(output@ =~= done + seq![JsonToken::TerminalError]);
                            return output;
                        },
                    }
                }
                in_escape = false;
            } else if byte == 0x5C {
                in_escape = true;
                i += 1;
            } else if in_quote {
                if byte == 0x22 {
                    in_quote = false;
                    output.push(JsonToken::QuoteMark);
                    proof {
                        lemma_emitted(done, JsonToken::QuoteMark, scan(input@, i + 1, false, false));
                    }
                } else {
                    output.push(JsonToken::QuotedValue(byte));
                    proof {
                        lemma_emitted(
                            done,
                            JsonToken::QuotedValue(byte),
                            scan(input@, i + 1, true, false),
                        );
                    }
                }
                i += 1;
            } else {
                match plain(byte) {
                    None => {},
                    Some(token) => {
                        let opens: bool = token == JsonToken::QuoteMark;
                        output.push(token);
                        proof {
                            lemma_emitted(done, token, scan(input@, i + 1, opens, false));
                        }
                        in_quote = opens;
                    },
                }
                i += 1;
            }
        }
        if in_escape {
            let ghost done = output@;
            output.push(JsonToken::TerminalError);
            assert(output@ =~= done + seq![JsonToken::TerminalError]);
        } else {
            assert(output@ + Seq::<JsonToken>::empty() =~= output@);
        }
        output
    }
}

} // verus!
