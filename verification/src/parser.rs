use crate::number::{JsonNumber, NumberModel, Numerals};
use crate::text::{
    false_text, fold_byte, folded, lowercase, null_text, text_from_utf8, to_lowercase, true_text,
};
use crate::token::{tokens_of, JsonToken};
use crate::value::{
    find_member, has_key, keys_distinct, lemma_array_view, lemma_key_position, lemma_object_view,
    member_models, models, well_formed, JsonModel, JsonValue,
};
use vstd::prelude::*;
use vstd::utf8::*;

verus! {

/// The bytes of the quoted content tokens that stand in a row from `at` on.
pub open spec fn quoted_run(tokens: Seq<JsonToken>, at: int) -> Seq<u8>
    decreases tokens.len() - at,
{
    if 0 <= at < tokens.len() && tokens[at] is QuotedValue {
        seq![tokens[at]->QuotedValue_0] + quoted_run(tokens, at + 1)
    } else {
        Seq::empty()
    }
}

/// The bytes of the bare content tokens that stand in a row from `at` on.
pub open spec fn literal_run(tokens: Seq<JsonToken>, at: int) -> Seq<u8>
    decreases tokens.len() - at,
{
    if 0 <= at < tokens.len() && tokens[at] is LiteralValue {
        seq![tokens[at]->LiteralValue_0] + literal_run(tokens, at + 1)
    } else {
        Seq::empty()
    }
}

/// The string whose opening quote mark stands just before `at`, and the index
/// after its closing quote mark. There is none where the quoted content is not
/// followed by a quote mark, or is not UTF-8.
pub open spec fn string_at(tokens: Seq<JsonToken>, at: int) -> Option<(Seq<char>, int)> {
    let bytes = quoted_run(tokens, at);
    let end = at + bytes.len();
    if 0 <= at && end < tokens.len() && tokens[end] is QuoteMark && valid_utf8(bytes) {
        Some((decode_utf8(bytes), end + 1))
    } else {
        None
    }
}

/// The value that a bare word names: `true`, `false` or `null`, in capital
/// or small letters.
pub open spec fn keyword(word: Seq<u8>) -> Option<JsonModel> {
    if folded(word) == true_text() {
        Some(JsonModel::Boolean(true))
    } else if folded(word) == false_text() {
        Some(JsonModel::Boolean(false))
    } else if folded(word) == null_text() {
        Some(JsonModel::Null)
    } else {
        None
    }
}

/// The number that a bare word writes: the word must be UTF-8, and `numbers`
/// is asked for its lower-case form.
pub open spec fn number_word(word: Seq<u8>, numbers: spec_fn(Seq<char>) -> Option<NumberModel>) -> Option<
    NumberModel,
> {
    if valid_utf8(word) {
        numbers(lowercase(decode_utf8(word)))
    } else {
        None
    }
}

/// The value of a bare word: what it names, or else the number it writes.
pub open spec fn literal_value(word: Seq<u8>, numbers: spec_fn(Seq<char>) -> Option<NumberModel>) -> Option<
    JsonModel,
> {
    match keyword(word) {
        Some(value) => Some(value),
        None => match number_word(word, numbers) {
            Some(n) => Some(JsonModel::Number(n)),
            None => None,
        },
    }
}

/// The bare word that begins with the byte `first` and goes on at `at`: its
/// value and the index after it. The word is all the bare content in a row.
pub open spec fn literal_at(
    tokens: Seq<JsonToken>,
    first: u8,
    at: int,
    numbers: spec_fn(Seq<char>) -> Option<NumberModel>,
) -> Option<(JsonModel, int)> {
    match literal_value(seq![first] + literal_run(tokens, at), numbers) {
        Some(value) => Some((value, at + literal_run(tokens, at).len())),
        None => None,
    }
}

/// The index after one value terminator at `at`, if one stands there.
pub open spec fn after_comma(tokens: Seq<JsonToken>, at: int) -> int {
    if 0 <= at < tokens.len() && tokens[at] is EndValue {
        at + 1
    } else {
        at
    }
}

/// The value that begins at `at`, and the index after it.
pub open spec fn value_at(
    tokens: Seq<JsonToken>,
    at: int,
    numbers: spec_fn(Seq<char>) -> Option<NumberModel>,
) -> Option<(JsonModel, int)>
    decreases tokens.len() - at, 0int,
{
    if at < 0 || at >= tokens.len() {
        None
    } else {
        match tokens[at] {
            JsonToken::BeginArray => array_at(tokens, at + 1, numbers, Seq::empty()),
            JsonToken::BeginObject => object_at(tokens, at + 1, numbers, Seq::empty()),
            JsonToken::LiteralValue(first) => literal_at(tokens, first, at + 1, numbers),
            JsonToken::QuoteMark => match string_at(tokens, at + 1) {
                Some((text, next)) => Some((JsonModel::String(text), next)),
                None => None,
            },
            _ => None,
        }
    }
}

/// The rest of an array of which `items` have been read and which goes on at
/// `at`: the whole array, and the index after it.
///
/// A value terminator is skipped wherever it stands. After the closing
/// bracket one value terminator is taken along, if one stands there. (An item
/// always ends behind where it began, as [`lemma_value_at`] shows; the test
/// on `next` is there for the recursion to be well founded.)
pub open spec fn array_at(
    tokens: Seq<JsonToken>,
    at: int,
    numbers: spec_fn(Seq<char>) -> Option<NumberModel>,
    items: Seq<JsonModel>,
) -> Option<(JsonModel, int)>
    decreases tokens.len() - at, 1int,
{
    if at < 0 || at >= tokens.len() {
        None
    } else {
        match tokens[at] {
            JsonToken::EndArray => Some((JsonModel::Array(items), after_comma(tokens, at + 1))),
            JsonToken::EndValue => array_at(tokens, at + 1, numbers, items),
            JsonToken::BeginArray
            | JsonToken::BeginObject
            | JsonToken::LiteralValue(_)
            | JsonToken::QuoteMark => match value_at(tokens, at, numbers) {
                Some((item, next)) => if at < next <= tokens.len() {
                    array_at(tokens, next, numbers, items.push(item))
                } else {
                    None
                },
                None => None,
            },
            _ => None,
        }
    }
}

/// The rest of an object of which `members` have been read and which goes on
/// at `at`: the whole object, and the index after it.
///
/// Each member is a string, a key terminator and a value; one value terminator
/// after the value is taken along. A key that an earlier member has makes the
/// whole object fail. (The test on `next` always holds, as in [`array_at`].)
pub open spec fn object_at(
    tokens: Seq<JsonToken>,
    at: int,
    numbers: spec_fn(Seq<char>) -> Option<NumberModel>,
    members: Seq<(Seq<char>, JsonModel)>,
) -> Option<(JsonModel, int)>
    decreases tokens.len() - at, 1int,
{
    if at < 0 || at >= tokens.len() {
        None
    } else {
        match tokens[at] {
            JsonToken::EndObject => Some((JsonModel::Object(members), at + 1)),
            JsonToken::QuoteMark => match string_at(tokens, at + 1) {
                Some((key, colon)) => if colon < tokens.len() && tokens[colon] is EndKey {
                    match value_at(tokens, colon + 1, numbers) {
                        Some((value, next)) => if at < next <= tokens.len() && !has_key(members, key) {
                            object_at(
                                tokens,
                                after_comma(tokens, next),
                                numbers,
                                members.push((key, value)),
                            )
                        } else {
                            None
                        },
                        None => None,
                    }
                } else {
                    None
                },
                None => None,
            },
            _ => None,
        }
    }
}

/// The value that a JSON text holds: the first value of its tokens. What
/// follows that value is not looked at.
pub open spec fn parsed(bytes: Seq<u8>, numbers: spec_fn(Seq<char>) -> Option<NumberModel>) -> Option<
    JsonModel,
> {
    match value_at(tokens_of(bytes), 0, numbers) {
        Some((value, _)) => Some(value),
        None => None,
    }
}

/// Every value of the list is well formed.
pub open spec fn all_well_formed(items: Seq<JsonModel>) -> bool {
    forall|i: int| 0 <= i < items.len() ==> well_formed(#[trigger] items[i])
}

/// The members have distinct keys and well-formed values.
pub open spec fn members_well_formed(members: Seq<(Seq<char>, JsonModel)>) -> bool {
    keys_distinct(members) && forall|i: int|
        0 <= i < members.len() ==> well_formed((#[trigger] members[i]).1)
}

/// A value that is read ends behind where it began, within the tokens, and
/// no object in it has a key twice.
pub proof fn lemma_value_at(
    tokens: Seq<JsonToken>,
    at: int,
    numbers: spec_fn(Seq<char>) -> Option<NumberModel>,
)
    ensures
        match value_at(tokens, at, numbers) {
            Some((value, next)) => well_formed(value) && at < next <= tokens.len(),
            None => true,
        },
    decreases tokens.len() - at, 0int,
{
    if 0 <= at < tokens.len() {
        match tokens[at] {
            JsonToken::BeginArray => {
                lemma_array_at(tokens, at + 1, numbers, Seq::empty());
            },
            JsonToken::BeginObject => {
                lemma_object_at(tokens, at + 1, numbers, Seq::empty());
            },
            JsonToken::LiteralValue(first) => {
                lemma_run_within(tokens, at + 1);
            },
            _ => {},
        }
    }
}

proof fn lemma_run_within(tokens: Seq<JsonToken>, at: int)
    requires
        0 <= at <= tokens.len(),
    ensures
        at + literal_run(tokens, at).len() <= tokens.len(),
        at + quoted_run(tokens, at).len() <= tokens.len(),
    decreases tokens.len() - at,
{
    if at < tokens.len() {
        lemma_run_within(tokens, at + 1);
    }
}

proof fn lemma_array_at(
    tokens: Seq<JsonToken>,
    at: int,
    numbers: spec_fn(Seq<char>) -> Option<NumberModel>,
    items: Seq<JsonModel>,
)
    requires
        all_well_formed(items),
    ensures
        match array_at(tokens, at, numbers, items) {
            Some((value, next)) => well_formed(value) && at < next <= tokens.len(),
            None => true,
        },
    decreases tokens.len() - at, 1int,
{
    if 0 <= at < tokens.len() {
        match tokens[at] {
            JsonToken::EndArray => {},
            JsonToken::EndValue => {
                lemma_array_at(tokens, at + 1, numbers, items);
            },
            JsonToken::BeginArray
            | JsonToken::BeginObject
            | JsonToken::LiteralValue(_)
            | JsonToken::QuoteMark => {
                lemma_value_at(tokens, at, numbers);
                match value_at(tokens, at, numbers) {
                    Some((item, next)) => {
                        assert forall|i: int| 0 <= i < items.push(item).len() implies well_formed(
                            #[trigger] items.push(item)[i],
                        ) by {
                            if i < items.len() {
                                assert(items.push(item)[i] == items[i]);
                            }
                        }
                        lemma_array_at(tokens, next, numbers, items.push(item));
                    },
                    None => {},
                }
            },
            _ => {},
        }
    }
}

proof fn lemma_object_at(
    tokens: Seq<JsonToken>,
    at: int,
    numbers: spec_fn(Seq<char>) -> Option<NumberModel>,
    members: Seq<(Seq<char>, JsonModel)>,
)
    requires
        members_well_formed(members),
    ensures
        match object_at(tokens, at, numbers, members) {
            Some((value, next)) => well_formed(value) && at < next <= tokens.len(),
            None => true,
        },
    decreases tokens.len() - at, 1int,
{
    if 0 <= at < tokens.len() {
        match tokens[at] {
            JsonToken::QuoteMark => {
                match string_at(tokens, at + 1) {
                    Some((key, colon)) => {
                        if colon < tokens.len() && tokens[colon] is EndKey {
                            lemma_value_at(tokens, colon + 1, numbers);
                            match value_at(tokens, colon + 1, numbers) {
                                Some((value, next)) => {
                                    if !has_key(members, key) {
                                        let more = members.push((key, value));
                                        lemma_key_position(members, key, 0);
                                        assert forall|i: int, j: int|
                                            0 <= i < j < more.len() implies (#[trigger] more[i]).0 != (
                                        #[trigger] more[j]).0 by {
                                            assert(more[i] == members[i]);
                                            if j < members.len() {
                                                assert(more[j] == members[j]);
                                            }
                                        }
                                        assert forall|i: int| 0 <= i < more.len() implies well_formed(
                                            (#[trigger] more[i]).1,
                                        ) by {
                                            if i < members.len() {
                                                assert(more[i] == members[i]);
                                            }
                                        }
                                        lemma_object_at(tokens, after_comma(tokens, next), numbers, more);
                                    }
                                },
                                None => {},
                            }
                        }
                    },
                    None => {},
                }
            },
            _ => {},
        }
    }
}

/// What a parsing step gives: what the value holds, and the next index.
pub open spec fn outcome(r: Option<(JsonValue, usize)>) -> Option<(JsonModel, int)> {
    match r {
        Some((value, next)) => Some((value@, next as int)),
        None => None,
    }
}

/// A parsing step that succeeds ends behind the index `floor` and within the
/// tokens.
pub open spec fn advances(r: Option<(JsonModel, int)>, floor: int, len: int) -> bool {
    match r {
        Some((_, next)) => floor <= next <= len,
        None => true,
    }
}

fn read_string(tokens: &Vec<JsonToken>, at: usize) -> (r: Option<(String, usize)>)
    ensures
        match r {
            Some((text, next)) => string_at(tokens@, at as int) == Some((text@, next as int)) && at < next
                <= tokens@.len(),
            None => string_at(tokens@, at as int) is None,
        },
{
    let mut bytes: Vec<u8> = Vec::new();
    let mut pos: usize = at;
    loop
        invariant
            at <= pos,
            pos == at + bytes@.len(),
            bytes@ + quoted_run(tokens@, pos as int) == quoted_run(tokens@, at as int),
        decreases tokens@.len() - pos,
    {
        if pos >= tokens.len() {
            assert(bytes@ + Seq::<u8>::empty() =~= bytes@);
            return None;
        }
        let token: JsonToken = tokens[pos];
        match token {
            JsonToken::QuotedValue(byte) => {
                assert(bytes@.push(byte) + quoted_run(tokens@, pos + 1) =~= bytes@ + quoted_run(
                    tokens@,
                    pos as int,
                ));
                bytes.push(byte);
                pos += 1;
            },
            JsonToken::QuoteMark => {
                assert(bytes@ + Seq::<u8>::empty() =~= bytes@);
                return match text_from_utf8(bytes) {
                    Some(text) => Some((text, pos + 1)),
                    None => None,
                };
            },
            _ => {
                assert(bytes@ + Seq::<u8>::empty() =~= bytes@);
                return None;
            },
        }
    }
}

fn fold(byte: u8) -> (r: u8)
    ensures
        r == fold_byte(byte),
{
    if 65 <= byte && byte <= 90 {
        byte + 32
    } else {
        byte
    }
}

/// The value that a bare word names, if it is `true`, `false` or `null`.
pub fn keyword_of(word: &Vec<u8>) -> (r: Option<JsonValue>)
    ensures
        match r {
            Some(value) => keyword(word@) == Some(value@),
            None => keyword(word@) is None,
        },
{
    let ghost f = folded(word@);
    if word.len() == 4 && fold(word[0]) == 0x74 && fold(word[1]) == 0x72 && fold(word[2]) == 0x75
        && fold(word[3]) == 0x65 {
        assert(f =~= true_text());
        Some(JsonValue::Boolean(true))
    } else if word.len() == 5 && fold(word[0]) == 0x66 && fold(word[1]) == 0x61 && fold(word[2])
        == 0x6C && fold(word[3]) == 0x73 && fold(word[4]) == 0x65 {
        assert(f =~= false_text());
        assert(f != true_text());
        Some(JsonValue::Boolean(false))
    } else if word.len() == 4 && fold(word[0]) == 0x6E && fold(word[1]) == 0x75 && fold(word[2])
        == 0x6C && fold(word[3]) == 0x6C {
        assert(f =~= null_text());
        assert(f != true_text()) by {
            assert(f[0] != true_text()[0]);
        }
        Some(JsonValue::Null)
    } else {
        assert(f != true_text()) by {
            if f == true_text() {
                assert(f.len() == 4 && f[0] == 0x74 && f[1] == 0x72 && f[2] == 0x75 && f[3] == 0x65);
            }
        }
        assert(f != false_text()) by {
            if f == false_text() {
                assert(f.len() == 5 && f[0] == 0x66 && f[1] == 0x61 && f[2] == 0x6C && f[3] == 0x73
                    && f[4] == 0x65);
            }
        }
        assert(f != null_text()) by {
            if f == null_text() {
                assert(f.len() == 4 && f[0] == 0x6E && f[1] == 0x75 && f[2] == 0x6C && f[3] == 0x6C);
            }
        }
        None
    }
}

/// The value of a bare word.
pub fn literal_of<R: Fn(&str) -> Option<JsonNumber>>(word: Vec<u8>, numbers: &Numerals<R>) -> (r: Option<JsonValue>)
    ensures
        match r {
            Some(value) => literal_value(word@, numbers.reading()) == Some(value@),
            None => literal_value(word@, numbers.reading()) is None,
        },
{
    match keyword_of(&word) {
        Some(value) => Some(value),
        None => match text_from_utf8(word) {
            Some(text) => {
                let lower = to_lowercase(text.as_str());
                match numbers.read(lower.as_str()) {
                    Some(n) => Some(JsonValue::Number(n)),
                    None => None,
                }
            },
            None => None,
        },
    }
}

/// The steps of the parser, each from an index into the tokens to a value and
/// the index after it.
pub struct JsonParserUtilities();

impl JsonParserUtilities {
    /// Reads a string whose opening quote mark stands just before `at`.
    pub fn parse_quote(tokens: &Vec<JsonToken>, at: usize) -> (r: Option<(JsonValue, usize)>)
        ensures
            outcome(r) == match string_at(tokens@, at as int) {
                Some((text, next)) => Some((JsonModel::String(text), next)),
                None => None,
            },
            advances(outcome(r), at + 1, tokens@.len() as int),
    {
        match read_string(tokens, at) {
            Some((text, next)) => Some((JsonValue::String(text), next)),
            None => None,
        }
    }

    /// Reads the bare word that begins with `first_value` and goes on at `at`.
    pub fn parse_literal<R: Fn(&str) -> Option<JsonNumber>>(
        tokens: &Vec<JsonToken>,
        at: usize,
        first_value: u8,
        numbers: &Numerals<R>,
    ) -> (r: Option<(JsonValue, usize)>)
        ensures
            outcome(r) == literal_at(tokens@, first_value, at as int, numbers.reading()),
            match r {
                Some((_, next)) => at <= next && (at <= tokens@.len() ==> next <= tokens@.len()),
                None => true,
            },
    {
        let mut bytes: Vec<u8> = Vec::new();
        bytes.push(first_value);
        let mut pos: usize = at;
        let len: usize = tokens.len();
        let mut more: bool = at < len;
        while more
            invariant
                len == tokens@.len(),
                at <= pos,
                more ==> pos < tokens@.len(),
                at <= tokens@.len() ==> pos <= tokens@.len(),
                bytes@.len() >= 1,
                pos == at + bytes@.len() - 1,
                bytes@ + literal_run(tokens@, pos as int) == seq![first_value] + literal_run(
                    tokens@,
                    at as int,
                ),
                !more ==> literal_run(tokens@, pos as int) == Seq::<u8>::empty(),
            decreases (if more { tokens@.len() - pos + 1 } else { 0 }),
        {
            let token: JsonToken = tokens[pos];
            match token {
                JsonToken::LiteralValue(byte) => {
                    assert(bytes@.push(byte) + literal_run(tokens@, pos + 1) =~= bytes@ + literal_run(
                        tokens@,
                        pos as int,
                    ));
                    bytes.push(byte);
                    pos += 1;
                    more = pos < len;
                },
                _ => {
                    more = false;
                },
            }
        }
        assert(literal_run(tokens@, pos as int) =~= Seq::<u8>::empty());
        assert(bytes@ + Seq::<u8>::empty() =~= bytes@);
        assert(literal_run(tokens@, at as int).len() == pos - at) by {
            assert((seq![first_value] + literal_run(tokens@, at as int)).len() == bytes@.len());
        }
        match literal_of(bytes, numbers) {
            Some(value) => Some((value, pos)),
            None => None,
        }
    }

    /// Reads the rest of an array whose opening bracket stands just before `at`.
    pub fn parse_array<R: Fn(&str) -> Option<JsonNumber>>(
        tokens: &Vec<JsonToken>,
        at: usize,
        numbers: &Numerals<R>,
    ) -> (r: Option<(JsonValue, usize)>)
        ensures
            outcome(r) == array_at(tokens@, at as int, numbers.reading(), Seq::empty()),
            advances(outcome(r), at + 1, tokens@.len() as int),
        decreases tokens@.len() - at,
    {
        let mut items: Vec<JsonValue> = Vec::new();
        let mut pos: usize = at;
        assert(models(items@) =~= Seq::<JsonModel>::empty());
        loop
            invariant
                at <= pos,
                array_at(tokens@, pos as int, numbers.reading(), models(items@)) == array_at(
                    tokens@,
                    at as int,
                    numbers.reading(),
                    Seq::empty(),
                ),
            decreases tokens@.len() - pos,
        {
            if pos >= tokens.len() {
                return None;
            }
            let token: JsonToken = tokens[pos];
            let step: Option<(JsonValue, usize)> = match token {
                JsonToken::EndArray => {
                    let mut end: usize = pos + 1;
                    if end < tokens.len() {
                        let token: JsonToken = tokens[end];
                        match token {
                            JsonToken::EndValue => {
                                end += 1;
                            },
                            _ => {},
                        }
                    }
                    proof {
                        lemma_array_view(items);
                    }
                    return Some((JsonValue::Array(items), end));
                },
                JsonToken::EndValue => {
                    pos += 1;
                    continue ;
                },
                JsonToken::BeginArray => Self::parse_array(tokens, pos + 1, numbers),
                JsonToken::BeginObject => Self::parse_object(tokens, pos + 1, numbers),
                JsonToken::LiteralValue(first) => Self::parse_literal(tokens, pos + 1, first, numbers),
                JsonToken::QuoteMark => Self::parse_quote(tokens, pos + 1),
                _ => {
                    return None;
                },
            };
            assert(outcome(step) == value_at(tokens@, pos as int, numbers.reading()));
            match step {
                Some((item, next)) => {
                    assert(models(items@.push(item)) =~= models(items@).push(item@));
                    items.push(item);
                    pos = next;
                },
                None => {
                    return None;
                },
            }
        }
    }

    /// Reads the rest of an object whose opening brace stands just before `at`.
    pub fn parse_object<R: Fn(&str) -> Option<JsonNumber>>(
        tokens: &Vec<JsonToken>,
        at: usize,
        numbers: &Numerals<R>,
    ) -> (r: Option<(JsonValue, usize)>)
        ensures
            outcome(r) == object_at(tokens@, at as int, numbers.reading(), Seq::empty()),
            advances(outcome(r), at + 1, tokens@.len() as int),
        decreases tokens@.len() - at,
    {
        let mut members: Vec<(String, JsonValue)> = Vec::new();
        let mut pos: usize = at;
        assert(member_models(members@) =~= Seq::<(Seq<char>, JsonModel)>::empty());
        loop
            invariant
                at <= pos,
                object_at(tokens@, pos as int, numbers.reading(), member_models(members@)) == object_at(
                    tokens@,
                    at as int,
                    numbers.reading(),
                    Seq::empty(),
                ),
            decreases tokens@.len() - pos,
        {
            if pos >= tokens.len() {
                return None;
            }
            let token: JsonToken = tokens[pos];
            match token {
                JsonToken::EndObject => {
                    proof {
                        lemma_object_view(members);
                    }
                    return Some((JsonValue::Object(members), pos + 1));
                },
                JsonToken::QuoteMark => {},
                _ => {
                    return None;
                },
            }
            let (key, colon) = match read_string(tokens, pos + 1) {
                Some(found) => found,
                None => {
                    return None;
                },
            };
            if colon >= tokens.len() {
                return None;
            }
            let token: JsonToken = tokens[colon];
            match token {
                JsonToken::EndKey => {},
                _ => {
                    return None;
                },
            }
            let (value, next) = match Self::parse_value(tokens, colon + 1, numbers) {
                Some(found) => found,
                None => {
                    return None;
                },
            };
            let mut after: usize = next;
            if after < tokens.len() {
                let token: JsonToken = tokens[after];
                match token {
                    JsonToken::EndValue => {
                        after += 1;
                    },
                    _ => {},
                }
            }
            if find_member(&members, &key).is_some() {
                return None;
            }
            assert(member_models(members@.push((key, value))) =~= member_models(members@).push(
                (key@, value@),
            ));
            members.push((key, value));
            pos = after;
        }
    }

    /// Reads the value that begins at `at`.
    pub fn parse_value<R: Fn(&str) -> Option<JsonNumber>>(
        tokens: &Vec<JsonToken>,
        at: usize,
        numbers: &Numerals<R>,
    ) -> (r: Option<(JsonValue, usize)>)
        ensures
            outcome(r) == value_at(tokens@, at as int, numbers.reading()),
            advances(outcome(r), at + 1, tokens@.len() as int),
        decreases tokens@.len() - at, 1int,
    {
        if at >= tokens.len() {
            return None;
        }
        let token: JsonToken = tokens[at];
        match token {
            JsonToken::BeginArray => Self::parse_array(tokens, at + 1, numbers),
            JsonToken::BeginObject => Self::parse_object(tokens, at + 1, numbers),
            JsonToken::LiteralValue(first) => Self::parse_literal(tokens, at + 1, first, numbers),
            JsonToken::QuoteMark => Self::parse_quote(tokens, at + 1),
            _ => None,
        }
    }
}

impl JsonValue {
    /// Parses the first JSON value of `input`. `numbers` is asked for the
    /// number that each bare word other than `true`, `false` and `null` writes.
    pub fn parse<R: Fn(&str) -> Option<JsonNumber>>(input: Vec<u8>, numbers: &Numerals<R>) -> (r: Option<JsonValue>)
        ensures
            match r {
                Some(value) => parsed(input@, numbers.reading()) == Some(value@) && well_formed(value@),
                None => parsed(input@, numbers.reading()) is None,
            },
    {
        let tokens = JsonToken::to_json_tokens(input);
        proof {
            lemma_value_at(tokens@, 0, numbers.reading());
        }
        match JsonParserUtilities::parse_value(&tokens, 0, numbers) {
            Some((value, _)) => Some(value),
            None => None,
        }
    }
}

} // verus!
