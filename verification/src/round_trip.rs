use crate::number::NumberModel;
use crate::parser::{
    after_comma, array_at, keyword, literal_run, literal_value, object_at, parsed, quoted_run,
    string_at, value_at,
};
use crate::stringify::{
    escaped, escaped_byte, items_text, json_text, member_text, members_text, quoted,
};
use crate::text::{false_text, folded, null_text, true_text};
use crate::token::{plain_token, scan, tokens_of, JsonToken};
use crate::value::{has_key, keys_distinct, lemma_key_position_is, well_formed, JsonModel};
use vstd::prelude::*;
use vstd::utf8::*;

verus! {

/// A byte that, outside quotes, gives a bare content token of itself.
pub open spec fn is_bare(byte: u8) -> bool {
    byte != 0x5C && plain_token(byte) == Some(JsonToken::LiteralValue(byte))
}

/// Every byte of the word is bare.
pub open spec fn all_bare(word: Seq<u8>) -> bool {
    forall|i: int| 0 <= i < word.len() ==> is_bare(#[trigger] word[i])
}

/// The rendering of the number is a bare word, and the word is read as the
/// number again.
pub open spec fn survives(n: NumberModel, numbers: spec_fn(Seq<char>) -> Option<NumberModel>) -> bool {
    let word = encode_utf8(n.text);
    word.len() > 0 && all_bare(word) && literal_value(word, numbers) == Some(JsonModel::Number(n))
}

/// Every number in the tree survives.
pub open spec fn numbers_survive(tree: JsonModel, numbers: spec_fn(Seq<char>) -> Option<NumberModel>) -> bool
    decreases tree,
{
    match tree {
        JsonModel::Number(n) => survives(n, numbers),
        JsonModel::Array(items) => forall|i: int|
            0 <= i < items.len() ==> numbers_survive(#[trigger] items[i], numbers),
        JsonModel::Object(members) => forall|i: int|
            0 <= i < members.len() ==> numbers_survive((#[trigger] members[i]).1, numbers),
        _ => true,
    }
}

/// `part` stands in `whole` from the index `at` on.
spec fn holds_at<T>(whole: Seq<T>, at: int, part: Seq<T>) -> bool {
    &&& 0 <= at && at + part.len() <= whole.len()
    &&& forall|k: int| 0 <= k < part.len() ==> whole[at + k] == #[trigger] part[k]
}

/// The bare content tokens of a word.
spec fn bare_tokens(word: Seq<u8>) -> Seq<JsonToken> {
    Seq::new(word.len(), |i: int| JsonToken::LiteralValue(word[i]))
}

/// The quoted content tokens of the bytes of a string.
spec fn quoted_tokens(bytes: Seq<u8>) -> Seq<JsonToken> {
    Seq::new(bytes.len(), |i: int| JsonToken::QuotedValue(bytes[i]))
}

/// The tokens of a string: its bytes between two quote marks.
spec fn string_tokens(text: Seq<char>) -> Seq<JsonToken> {
    seq![JsonToken::QuoteMark] + quoted_tokens(encode_utf8(text)) + seq![JsonToken::QuoteMark]
}

/// The tokens of the text of a value.
spec fn expected(tree: JsonModel) -> Seq<JsonToken>
    decreases tree,
{
    match tree {
        JsonModel::Null => bare_tokens(null_text()),
        JsonModel::Boolean(b) => bare_tokens(
            if b {
                true_text()
            } else {
                false_text()
            },
        ),
        JsonModel::Number(n) => bare_tokens(encode_utf8(n.text)),
        JsonModel::String(s) => string_tokens(s),
        JsonModel::Array(items) => seq![JsonToken::BeginArray] + expected_items(items) + seq![
            JsonToken::EndArray,
        ],
        JsonModel::Object(members) => seq![JsonToken::BeginObject] + expected_members(members) + seq![
            JsonToken::EndObject,
        ],
    }
}

/// The tokens of the items of an array.
spec fn expected_items(items: Seq<JsonModel>) -> Seq<JsonToken>
    decreases items,
{
    if items.len() == 0 {
        Seq::empty()
    } else if items.len() == 1 {
        expected(items[0])
    } else {
        expected_items(items.drop_last()) + seq![JsonToken::EndValue] + expected(items.last())
    }
}

/// The tokens of one member of an object.
spec fn expected_member(member: (Seq<char>, JsonModel)) -> Seq<JsonToken>
    decreases member,
{
    string_tokens(member.0) + seq![JsonToken::EndKey] + expected(member.1)
}

/// The tokens of the members of an object.
spec fn expected_members(members: Seq<(Seq<char>, JsonModel)>) -> Seq<JsonToken>
    decreases members,
{
    if members.len() == 0 {
        Seq::empty()
    } else if members.len() == 1 {
        expected_member(members[0])
    } else {
        expected_members(members.drop_last()) + seq![JsonToken::EndValue] + expected_member(
            members.last(),
        )
    }
}

proof fn lemma_holds_split<T>(whole: Seq<T>, at: int, a: Seq<T>, b: Seq<T>)
    requires
        holds_at(whole, at, a + b),
    ensures
        holds_at(whole, at, a),
        holds_at(whole, at + a.len(), b),
{
    assert forall|k: int| 0 <= k < a.len() implies whole[at + k] == #[trigger] a[k] by {
        assert((a + b)[k] == a[k]);
    }
    assert forall|k: int| 0 <= k < b.len() implies whole[at + a.len() + k] == #[trigger] b[k] by {
        assert((a + b)[a.len() + k] == b[k]);
    }
}

proof fn lemma_holds_one<T>(whole: Seq<T>, at: int, x: T)
    requires
        holds_at(whole, at, seq![x]),
    ensures
        0 <= at < whole.len(),
        whole[at] == x,
{
    assert(seq![x][0] == x);
}

proof fn lemma_scan_bare(bytes: Seq<u8>, at: int, word: Seq<u8>)
    requires
        holds_at(bytes, at, word),
        all_bare(word),
    ensures
        scan(bytes, at, false, false) == bare_tokens(word) + scan(
            bytes,
            at + word.len(),
            false,
            false,
        ),
    decreases word.len(),
{
    if word.len() == 0 {
        assert(bare_tokens(word) + scan(bytes, at, false, false) =~= scan(bytes, at, false, false));
    } else {
        let head = word.drop_last();
        let last = word.last();
        assert(word =~= head + seq![last]);
        lemma_holds_split(bytes, at, head, seq![last]);
        lemma_holds_one(bytes, at + head.len(), last);
        assert forall|i: int| 0 <= i < head.len() implies is_bare(#[trigger] head[i]) by {
            assert(head[i] == word[i]);
        }
        lemma_scan_bare(bytes, at, head);
        assert(is_bare(word[word.len() - 1]));
        assert(bare_tokens(word) =~= bare_tokens(head) + seq![JsonToken::LiteralValue(last)]);
        assert(scan(bytes, at + head.len(), false, false) == seq![JsonToken::LiteralValue(last)]
            + scan(bytes, at + word.len(), false, false));
        assert(bare_tokens(head) + (seq![JsonToken::LiteralValue(last)] + scan(
            bytes,
            at + word.len(),
            false,
            false,
        )) =~= bare_tokens(word) + scan(bytes, at + word.len(), false, false));
    }
}

proof fn lemma_scan_escaped(bytes: Seq<u8>, at: int, text: Seq<u8>)
    requires
        holds_at(bytes, at, escaped(text)),
    ensures
        scan(bytes, at, true, false) == quoted_tokens(text) + scan(
            bytes,
            at + escaped(text).len(),
            true,
            false,
        ),
    decreases text.len(),
{
    if text.len() == 0 {
        assert(quoted_tokens(text) + scan(bytes, at, true, false) =~= scan(bytes, at, true, false));
    } else {
        let head = text.drop_last();
        let last = text.last();
        lemma_holds_split(bytes, at, escaped(head), escaped_byte(last));
        lemma_scan_escaped(bytes, at, head);
        let p = at + escaped(head).len();
        let e = escaped_byte(last);
        assert(bytes[p] == e[0]);
        if e.len() == 2 {
            assert(bytes[p + 1] == e[1]);
        }
        assert(scan(bytes, p, true, false) == seq![JsonToken::QuotedValue(last)] + scan(
            bytes,
            p + e.len(),
            true,
            false,
        )) by {
            reveal_with_fuel(scan, 2);
        }
        assert(quoted_tokens(text) =~= quoted_tokens(head) + seq![JsonToken::QuotedValue(last)]);
        assert(quoted_tokens(head) + (seq![JsonToken::QuotedValue(last)] + scan(
            bytes,
            p + e.len(),
            true,
            false,
        )) =~= quoted_tokens(text) + scan(bytes, at + escaped(text).len(), true, false));
    }
}

proof fn lemma_scan_quoted(bytes: Seq<u8>, at: int, text: Seq<char>)
    requires
        holds_at(bytes, at, quoted(text)),
    ensures
        scan(bytes, at, false, false) == string_tokens(text) + scan(
            bytes,
            at + quoted(text).len(),
            false,
            false,
        ),
{
    let inner = escaped(encode_utf8(text));
    lemma_holds_split(bytes, at, seq![0x22u8] + inner, seq![0x22u8]);
    lemma_holds_split(bytes, at, seq![0x22u8], inner);
    lemma_holds_one(bytes, at, 0x22u8);
    lemma_holds_one(bytes, at + 1 + inner.len(), 0x22u8);
    lemma_scan_escaped(bytes, at + 1, encode_utf8(text));
    let close = at + 1 + inner.len();
    assert(scan(bytes, at, false, false) == seq![JsonToken::QuoteMark] + scan(bytes, at + 1, true, false));
    assert(scan(bytes, close, true, false) == seq![JsonToken::QuoteMark] + scan(
        bytes,
        close + 1,
        false,
        false,
    ));
    assert(seq![JsonToken::QuoteMark] + (quoted_tokens(encode_utf8(text)) + (seq![JsonToken::QuoteMark]
        + scan(bytes, close + 1, false, false))) =~= string_tokens(text) + scan(
        bytes,
        at + quoted(text).len(),
        false,
        false,
    ));
}

proof fn lemma_words_bare()
    ensures
        all_bare(null_text()),
        all_bare(true_text()),
        all_bare(false_text()),
{
    assert forall|i: int| 0 <= i < null_text().len() implies is_bare(#[trigger] null_text()[i]) by {}
    assert forall|i: int| 0 <= i < true_text().len() implies is_bare(#[trigger] true_text()[i]) by {}
    assert forall|i: int| 0 <= i < false_text().len() implies is_bare(#[trigger] false_text()[i]) by {}
}

/// Tokenizing the text of a value gives the expected tokens, and leaves the
/// tokenizer outside quotes behind the text.
proof fn lemma_scan_tree(
    bytes: Seq<u8>,
    at: int,
    tree: JsonModel,
    numbers: spec_fn(Seq<char>) -> Option<NumberModel>,
)
    requires
        holds_at(bytes, at, json_text(tree)),
        numbers_survive(tree, numbers),
    ensures
        scan(bytes, at, false, false) == expected(tree) + scan(
            bytes,
            at + json_text(tree).len(),
            false,
            false,
        ),
    decreases tree,
{
    match tree {
        JsonModel::Null => {
            lemma_words_bare();
            lemma_scan_bare(bytes, at, null_text());
        },
        JsonModel::Boolean(b) => {
            lemma_words_bare();
            if b {
                lemma_scan_bare(bytes, at, true_text());
            } else {
                lemma_scan_bare(bytes, at, false_text());
            }
        },
        JsonModel::Number(n) => {
            lemma_scan_bare(bytes, at, encode_utf8(n.text));
        },
        JsonModel::String(s) => {
            lemma_scan_quoted(bytes, at, s);
        },
        JsonModel::Array(items) => {
            let inner = items_text(items);
            lemma_holds_split(bytes, at, seq![0x5Bu8] + inner, seq![0x5Du8]);
            lemma_holds_split(bytes, at, seq![0x5Bu8], inner);
            lemma_holds_one(bytes, at, 0x5Bu8);
            lemma_holds_one(bytes, at + 1 + inner.len(), 0x5Du8);
            lemma_scan_items(bytes, at + 1, items, numbers);
            let close = at + 1 + inner.len();
            assert(scan(bytes, at, false, false) == seq![JsonToken::BeginArray] + scan(
                bytes,
                at + 1,
                false,
                false,
            ));
            assert(scan(bytes, close, false, false) == seq![JsonToken::EndArray] + scan(
                bytes,
                close + 1,
                false,
                false,
            ));
            assert(seq![JsonToken::BeginArray] + (expected_items(items) + (seq![JsonToken::EndArray]
                + scan(bytes, close + 1, false, false))) =~= expected(tree) + scan(
                bytes,
                at + json_text(tree).len(),
                false,
                false,
            ));
        },
        JsonModel::Object(members) => {
            let inner = members_text(members);
            lemma_holds_split(bytes, at, seq![0x7Bu8] + inner, seq![0x7Du8]);
            lemma_holds_split(bytes, at, seq![0x7Bu8], inner);
            lemma_holds_one(bytes, at, 0x7Bu8);
            lemma_holds_one(bytes, at + 1 + inner.len(), 0x7Du8);
            lemma_scan_members(bytes, at + 1, members, numbers);
            let close = at + 1 + inner.len();
            assert(scan(bytes, at, false, false) == seq![JsonToken::BeginObject] + scan(
                bytes,
                at + 1,
                false,
                false,
            ));
            assert(scan(bytes, close, false, false) == seq![JsonToken::EndObject] + scan(
                bytes,
                close + 1,
                false,
                false,
            ));
            assert(seq![JsonToken::BeginObject] + (expected_members(members) + (seq![
                JsonToken::EndObject,
            ] + scan(bytes, close + 1, false, false))) =~= expected(tree) + scan(
                bytes,
                at + json_text(tree).len(),
                false,
                false,
            ));
        },
    }
}

proof fn lemma_scan_items(
    bytes: Seq<u8>,
    at: int,
    items: Seq<JsonModel>,
    numbers: spec_fn(Seq<char>) -> Option<NumberModel>,
)
    requires
        holds_at(bytes, at, items_text(items)),
        forall|i: int| 0 <= i < items.len() ==> numbers_survive(#[trigger] items[i], numbers),
    ensures
        scan(bytes, at, false, false) == expected_items(items) + scan(
            bytes,
            at + items_text(items).len(),
            false,
            false,
        ),
    decreases items,
{
    if items.len() == 0 {
        assert(expected_items(items) + scan(bytes, at, false, false) =~= scan(bytes, at, false, false));
    } else if items.len() == 1 {
        lemma_scan_tree(bytes, at, items[0], numbers);
    } else {
        let head = items.drop_last();
        let last = items.last();
        let before = items_text(head);
        lemma_holds_split(bytes, at, before + seq![0x2Cu8], json_text(last));
        lemma_holds_split(bytes, at, before, seq![0x2Cu8]);
        lemma_holds_one(bytes, at + before.len(), 0x2Cu8);
        assert forall|i: int| 0 <= i < head.len() implies numbers_survive(#[trigger] head[i], numbers) by {
            assert(head[i] == items[i]);
        }
        lemma_scan_items(bytes, at, head, numbers);
        let comma = at + before.len();
        lemma_scan_tree(bytes, comma + 1, last, numbers);
        assert(scan(bytes, comma, false, false) == seq![JsonToken::EndValue] + scan(
            bytes,
            comma + 1,
            false,
            false,
        ));
        assert(expected_items(head) + (seq![JsonToken::EndValue] + (expected(last) + scan(
            bytes,
            comma + 1 + json_text(last).len(),
            false,
            false,
        ))) =~= expected_items(items) + scan(bytes, at + items_text(items).len(), false, false));
    }
}

proof fn lemma_scan_member(
    bytes: Seq<u8>,
    at: int,
    member: (Seq<char>, JsonModel),
    numbers: spec_fn(Seq<char>) -> Option<NumberModel>,
)
    requires
        holds_at(bytes, at, member_text(member)),
        numbers_survive(member.1, numbers),
    ensures
        scan(bytes, at, false, false) == expected_member(member) + scan(
            bytes,
            at + member_text(member).len(),
            false,
            false,
        ),
    decreases member,
{
    let key = quoted(member.0);
    lemma_holds_split(bytes, at, key + seq![0x3Au8, 0x20u8], json_text(member.1));
    lemma_holds_split(bytes, at, key, seq![0x3Au8, 0x20u8]);
    lemma_scan_quoted(bytes, at, member.0);
    let colon = at + key.len();
    assert(bytes[colon] == 0x3Au8 && bytes[colon + 1] == 0x20u8) by {
        assert(seq![0x3Au8, 0x20u8][0] == 0x3Au8);
        assert(seq![0x3Au8, 0x20u8][1] == 0x20u8);
    }
    lemma_scan_tree(bytes, colon + 2, member.1, numbers);
    assert(scan(bytes, colon, false, false) == seq![JsonToken::EndKey] + scan(
        bytes,
        colon + 1,
        false,
        false,
    ));
    assert(scan(bytes, colon + 1, false, false) == scan(bytes, colon + 2, false, false));
    assert(string_tokens(member.0) + (seq![JsonToken::EndKey] + (expected(member.1) + scan(
        bytes,
        colon + 2 + json_text(member.1).len(),
        false,
        false,
    ))) =~= expected_member(member) + scan(bytes, at + member_text(member).len(), false, false));
}

proof fn lemma_scan_members(
    bytes: Seq<u8>,
    at: int,
    members: Seq<(Seq<char>, JsonModel)>,
    numbers: spec_fn(Seq<char>) -> Option<NumberModel>,
)
    requires
        holds_at(bytes, at, members_text(members)),
        forall|i: int| 0 <= i < members.len() ==> numbers_survive((#[trigger] members[i]).1, numbers),
    ensures
        scan(bytes, at, false, false) == expected_members(members) + scan(
            bytes,
            at + members_text(members).len(),
            false,
            false,
        ),
    decreases members,
{
    if members.len() == 0 {
        assert(expected_members(members) + scan(bytes, at, false, false) =~= scan(
            bytes,
            at,
            false,
            false,
        ));
    } else if members.len() == 1 {
        lemma_scan_member(bytes, at, members[0], numbers);
    } else {
        let head = members.drop_last();
        let last = members.last();
        let before = members_text(head);
        lemma_holds_split(bytes, at, before + seq![0x2Cu8], member_text(last));
        lemma_holds_split(bytes, at, before, seq![0x2Cu8]);
        lemma_holds_one(bytes, at + before.len(), 0x2Cu8);
        assert forall|i: int| 0 <= i < head.len() implies numbers_survive(
            (#[trigger] head[i]).1,
            numbers,
        ) by {
            assert(head[i] == members[i]);
        }
        lemma_scan_members(bytes, at, head, numbers);
        let comma = at + before.len();
        lemma_scan_member(bytes, comma + 1, last, numbers);
        assert(scan(bytes, comma, false, false) == seq![JsonToken::EndValue] + scan(
            bytes,
            comma + 1,
            false,
            false,
        ));
        assert(expected_members(head) + (seq![JsonToken::EndValue] + (expected_member(last) + scan(
            bytes,
            comma + 1 + member_text(last).len(),
            false,
            false,
        ))) =~= expected_members(members) + scan(
            bytes,
            at + members_text(members).len(),
            false,
            false,
        ));
    }
}

/// The tokens of the text of a value are the expected ones.
proof fn lemma_tokens_of_text(tree: JsonModel, numbers: spec_fn(Seq<char>) -> Option<NumberModel>)
    requires
        numbers_survive(tree, numbers),
    ensures
        tokens_of(json_text(tree)) == expected(tree),
{
    let text = json_text(tree);
    assert(holds_at(text, 0, text));
    lemma_scan_tree(text, 0, tree, numbers);
    assert(expected(tree) + scan(text, text.len() as int, false, false) =~= expected(tree));
}

/// No bare content token stands at `at`.
spec fn word_ends(tokens: Seq<JsonToken>, at: int) -> bool {
    at >= tokens.len() || !(tokens[at] is LiteralValue)
}

/// Where the parser stands after a value that ends before `end`: an array
/// takes one value terminator along.
spec fn after_value(tree: JsonModel, tokens: Seq<JsonToken>, end: int) -> int {
    if tree is Array {
        after_comma(tokens, end)
    } else {
        end
    }
}

proof fn lemma_quoted_run(tokens: Seq<JsonToken>, at: int, bytes: Seq<u8>)
    requires
        holds_at(tokens, at, quoted_tokens(bytes)),
        at + bytes.len() >= tokens.len() || !(tokens[at + bytes.len()] is QuotedValue),
    ensures
        quoted_run(tokens, at) == bytes,
    decreases bytes.len(),
{
    if bytes.len() == 0 {
        assert(quoted_run(tokens, at) =~= bytes);
    } else {
        let rest = bytes.skip(1);
        assert(tokens[at + 0] == quoted_tokens(bytes)[0]);
        assert forall|k: int| 0 <= k < quoted_tokens(rest).len() implies tokens[at + 1 + k]
            == #[trigger] quoted_tokens(rest)[k] by {
            assert(quoted_tokens(bytes)[k + 1] == quoted_tokens(rest)[k]);
        }
        lemma_quoted_run(tokens, at + 1, rest);
        assert(quoted_run(tokens, at) =~= bytes);
    }
}

proof fn lemma_literal_run(tokens: Seq<JsonToken>, at: int, word: Seq<u8>)
    requires
        holds_at(tokens, at, bare_tokens(word)),
        word_ends(tokens, at + word.len()),
    ensures
        literal_run(tokens, at) == word,
    decreases word.len(),
{
    if word.len() == 0 {
        assert(literal_run(tokens, at) =~= word);
    } else {
        let rest = word.skip(1);
        assert(tokens[at + 0] == bare_tokens(word)[0]);
        assert forall|k: int| 0 <= k < bare_tokens(rest).len() implies tokens[at + 1 + k]
            == #[trigger] bare_tokens(rest)[k] by {
            assert(bare_tokens(word)[k + 1] == bare_tokens(rest)[k]);
        }
        lemma_literal_run(tokens, at + 1, rest);
        assert(literal_run(tokens, at) =~= word);
    }
}

proof fn lemma_string_round(tokens: Seq<JsonToken>, at: int, text: Seq<char>)
    requires
        holds_at(tokens, at, string_tokens(text)),
    ensures
        0 <= at < tokens.len(),
        tokens[at] is QuoteMark,
        string_at(tokens, at + 1) == Some((text, at + string_tokens(text).len())),
{
    let bytes = encode_utf8(text);
    lemma_holds_split(tokens, at, seq![JsonToken::QuoteMark] + quoted_tokens(bytes), seq![JsonToken::QuoteMark]);
    lemma_holds_split(tokens, at, seq![JsonToken::QuoteMark], quoted_tokens(bytes));
    lemma_holds_one(tokens, at, JsonToken::QuoteMark);
    lemma_holds_one(tokens, at + 1 + bytes.len(), JsonToken::QuoteMark);
    lemma_quoted_run(tokens, at + 1, bytes);
    encode_utf8_valid_utf8(text);
    encode_utf8_decode_utf8(text);
}

proof fn lemma_word_round(
    tokens: Seq<JsonToken>,
    at: int,
    word: Seq<u8>,
    tree: JsonModel,
    numbers: spec_fn(Seq<char>) -> Option<NumberModel>,
)
    requires
        holds_at(tokens, at, bare_tokens(word)),
        word_ends(tokens, at + word.len()),
        word.len() > 0,
        literal_value(word, numbers) == Some(tree),
    ensures
        value_at(tokens, at, numbers) == Some((tree, at + word.len())),
{
    let rest = word.skip(1);
    assert(tokens[at + 0] == bare_tokens(word)[0]);
    assert forall|k: int| 0 <= k < bare_tokens(rest).len() implies tokens[at + 1 + k]
        == #[trigger] bare_tokens(rest)[k] by {
        assert(bare_tokens(word)[k + 1] == bare_tokens(rest)[k]);
    }
    lemma_literal_run(tokens, at + 1, rest);
    assert(seq![word[0]] + rest =~= word);
}

proof fn lemma_keywords()
    ensures
        keyword(null_text()) == Some(JsonModel::Null),
        keyword(true_text()) == Some(JsonModel::Boolean(true)),
        keyword(false_text()) == Some(JsonModel::Boolean(false)),
{
    assert(folded(null_text()) =~= null_text());
    assert(folded(true_text()) =~= true_text());
    assert(folded(false_text()) =~= false_text());
    assert(null_text()[0] != true_text()[0]);
    assert(null_text().len() != false_text().len());
    assert(false_text().len() != true_text().len());
}

/// The first token of a value says of which kind the value is.
proof fn lemma_first_token(tree: JsonModel, numbers: spec_fn(Seq<char>) -> Option<NumberModel>)
    requires
        numbers_survive(tree, numbers),
    ensures
        expected(tree).len() > 0,
        match expected(tree)[0] {
            JsonToken::BeginArray => tree is Array,
            JsonToken::BeginObject => tree is Object,
            JsonToken::QuoteMark => tree is String,
            JsonToken::LiteralValue(_) => tree is Null || tree is Boolean || tree is Number,
            _ => false,
        },
{
}

/// Where item `j` of an array stands among the tokens of its items.
proof fn lemma_items_layout(tokens: Seq<JsonToken>, from: int, items: Seq<JsonModel>, j: int)
    requires
        holds_at(tokens, from, expected_items(items)),
        0 <= j <= items.len(),
    ensures
        holds_at(tokens, from, expected_items(items.take(j))),
        j < items.len() ==> {
            let before = from + expected_items(items.take(j)).len();
            let start = if j > 0 {
                before + 1
            } else {
                before
            };
            &&& holds_at(tokens, start, expected(items[j]))
            &&& j > 0 ==> tokens[before] is EndValue
            &&& start + expected(items[j]).len() == from + expected_items(items.take(j + 1)).len()
        },
    decreases items.len() - j,
{
    if j == items.len() {
        assert(items.take(j) =~= items);
    } else {
        lemma_items_layout(tokens, from, items, j + 1);
        let more = items.take(j + 1);
        assert(more.drop_last() =~= items.take(j));
        assert(more.last() == items[j]);
        if j == 0 {
            assert(more[0] == items[0]);
            assert(expected_items(items.take(0)) =~= Seq::<JsonToken>::empty());
        } else {
            let head = expected_items(items.take(j));
            lemma_holds_split(tokens, from, head + seq![JsonToken::EndValue], expected(items[j]));
            lemma_holds_split(tokens, from, head, seq![JsonToken::EndValue]);
            lemma_holds_one(tokens, from + head.len(), JsonToken::EndValue);
        }
    }
}

/// Where member `j` of an object stands among the tokens of its members.
proof fn lemma_members_layout(
    tokens: Seq<JsonToken>,
    from: int,
    members: Seq<(Seq<char>, JsonModel)>,
    j: int,
)
    requires
        holds_at(tokens, from, expected_members(members)),
        0 <= j <= members.len(),
    ensures
        holds_at(tokens, from, expected_members(members.take(j))),
        j < members.len() ==> {
            let before = from + expected_members(members.take(j)).len();
            let start = if j > 0 {
                before + 1
            } else {
                before
            };
            &&& holds_at(tokens, start, expected_member(members[j]))
            &&& j > 0 ==> tokens[before] is EndValue
            &&& start + expected_member(members[j]).len() == from + expected_members(
                members.take(j + 1),
            ).len()
        },
    decreases members.len() - j,
{
    if j == members.len() {
        assert(members.take(j) =~= members);
    } else {
        lemma_members_layout(tokens, from, members, j + 1);
        let more = members.take(j + 1);
        assert(more.drop_last() =~= members.take(j));
        assert(more.last() == members[j]);
        if j == 0 {
            assert(more[0] == members[0]);
            assert(expected_members(members.take(0)) =~= Seq::<JsonToken>::empty());
        } else {
            let head = expected_members(members.take(j));
            lemma_holds_split(tokens, from, head + seq![JsonToken::EndValue], expected_member(members[j]));
            lemma_holds_split(tokens, from, head, seq![JsonToken::EndValue]);
            lemma_holds_one(tokens, from + head.len(), JsonToken::EndValue);
        }
    }
}

/// Parsing the expected tokens of a value gives the value back.
proof fn lemma_value_round(
    tokens: Seq<JsonToken>,
    at: int,
    tree: JsonModel,
    numbers: spec_fn(Seq<char>) -> Option<NumberModel>,
)
    requires
        holds_at(tokens, at, expected(tree)),
        word_ends(tokens, at + expected(tree).len()),
        well_formed(tree),
        numbers_survive(tree, numbers),
    ensures
        value_at(tokens, at, numbers) == Some(
            (tree, after_value(tree, tokens, at + expected(tree).len())),
        ),
    decreases tree, 0int,
{
    match tree {
        JsonModel::Null => {
            lemma_keywords();
            lemma_word_round(tokens, at, null_text(), tree, numbers);
        },
        JsonModel::Boolean(b) => {
            lemma_keywords();
            if b {
                lemma_word_round(tokens, at, true_text(), tree, numbers);
            } else {
                lemma_word_round(tokens, at, false_text(), tree, numbers);
            }
        },
        JsonModel::Number(n) => {
            lemma_word_round(tokens, at, encode_utf8(n.text), tree, numbers);
        },
        JsonModel::String(s) => {
            lemma_string_round(tokens, at, s);
        },
        JsonModel::Array(items) => {
            let inner = expected_items(items);
            lemma_holds_split(tokens, at, seq![JsonToken::BeginArray] + inner, seq![JsonToken::EndArray]);
            lemma_holds_split(tokens, at, seq![JsonToken::BeginArray], inner);
            lemma_holds_one(tokens, at, JsonToken::BeginArray);
            lemma_holds_one(tokens, at + 1 + inner.len(), JsonToken::EndArray);
            assert(items.take(0) =~= Seq::<JsonModel>::empty());
            lemma_array_round(tokens, at + 1, items, 0, numbers);
        },
        JsonModel::Object(members) => {
            let inner = expected_members(members);
            lemma_holds_split(
                tokens,
                at,
                seq![JsonToken::BeginObject] + inner,
                seq![JsonToken::EndObject],
            );
            lemma_holds_split(tokens, at, seq![JsonToken::BeginObject], inner);
            lemma_holds_one(tokens, at, JsonToken::BeginObject);
            lemma_holds_one(tokens, at + 1 + inner.len(), JsonToken::EndObject);
            assert(members.take(0) =~= Seq::<(Seq<char>, JsonModel)>::empty());
            lemma_object_round(tokens, at + 1, members, 0, numbers);
        },
    }
}

/// Where the parser stands before item `i` of an array whose items begin at
/// `from`, or before the closing bracket if `i` is the number of items.
spec fn item_start(from: int, items: Seq<JsonModel>, i: int) -> int {
    let before = from + expected_items(items.take(i)).len();
    if 0 < i < items.len() {
        before + 1
    } else {
        before
    }
}

proof fn lemma_array_round(
    tokens: Seq<JsonToken>,
    from: int,
    items: Seq<JsonModel>,
    i: int,
    numbers: spec_fn(Seq<char>) -> Option<NumberModel>,
)
    requires
        holds_at(tokens, from, expected_items(items)),
        from + expected_items(items).len() < tokens.len(),
        tokens[from + expected_items(items).len()] is EndArray,
        0 <= i <= items.len(),
        forall|k: int| 0 <= k < items.len() ==> well_formed(#[trigger] items[k]),
        forall|k: int| 0 <= k < items.len() ==> numbers_survive(#[trigger] items[k], numbers),
    ensures
        array_at(tokens, item_start(from, items, i), numbers, items.take(i)) == Some(
            (
                JsonModel::Array(items),
                after_comma(tokens, from + expected_items(items).len() + 1),
            ),
        ),
    decreases items, items.len() - i,
{
    let end = from + expected_items(items).len();
    let start = item_start(from, items, i);
    lemma_items_layout(tokens, from, items, i);
    if i == items.len() {
        assert(items.take(i) =~= items);
    } else {
        let item = items[i];
        let next = start + expected(item).len();
        lemma_first_token(item, numbers);
        assert(tokens[start + 0] == expected(item)[0]);
        lemma_items_layout(tokens, from, items, i + 1);
        assert(word_ends(tokens, next)) by {
            if i + 1 == items.len() {
                assert(items.take(i + 1) =~= items);
            }
        }
        lemma_value_round(tokens, start, item, numbers);
        let landed = after_value(item, tokens, next);
        assert(items.take(i).push(item) =~= items.take(i + 1));
        lemma_array_round(tokens, from, items, i + 1, numbers);
        if i + 1 == items.len() {
            assert(items.take(i + 1) =~= items);
            assert(landed == next);
        } else {
            assert(tokens[next] is EndValue);
            if landed == next {
                assert(array_at(tokens, next, numbers, items.take(i + 1)) == array_at(
                    tokens,
                    next + 1,
                    numbers,
                    items.take(i + 1),
                ));
            }
        }
    }
}

/// Where the parser stands before member `i` of an object whose members
/// begin at `from`, or before the closing brace if `i` is the number of
/// members.
spec fn member_start(from: int, members: Seq<(Seq<char>, JsonModel)>, i: int) -> int {
    let before = from + expected_members(members.take(i)).len();
    if 0 < i < members.len() {
        before + 1
    } else {
        before
    }
}

proof fn lemma_object_round(
    tokens: Seq<JsonToken>,
    from: int,
    members: Seq<(Seq<char>, JsonModel)>,
    i: int,
    numbers: spec_fn(Seq<char>) -> Option<NumberModel>,
)
    requires
        holds_at(tokens, from, expected_members(members)),
        from + expected_members(members).len() < tokens.len(),
        tokens[from + expected_members(members).len()] is EndObject,
        0 <= i <= members.len(),
        keys_distinct(members),
        forall|k: int| 0 <= k < members.len() ==> well_formed((#[trigger] members[k]).1),
        forall|k: int| 0 <= k < members.len() ==> numbers_survive((#[trigger] members[k]).1, numbers),
    ensures
        object_at(tokens, member_start(from, members, i), numbers, members.take(i)) == Some(
            (JsonModel::Object(members), from + expected_members(members).len() + 1),
        ),
    decreases members, members.len() - i,
{
    let end = from + expected_members(members).len();
    let start = member_start(from, members, i);
    lemma_members_layout(tokens, from, members, i);
    if i == members.len() {
        assert(members.take(i) =~= members);
    } else {
        let member = members[i];
        let key = member.0;
        let value = member.1;
        let colon = start + string_tokens(key).len();
        let next = colon + 1 + expected(value).len();
        lemma_holds_split(tokens, start, string_tokens(key) + seq![JsonToken::EndKey], expected(value));
        lemma_holds_split(tokens, start, string_tokens(key), seq![JsonToken::EndKey]);
        lemma_holds_one(tokens, colon, JsonToken::EndKey);
        lemma_string_round(tokens, start, key);
        lemma_members_layout(tokens, from, members, i + 1);
        assert(word_ends(tokens, next)) by {
            if i + 1 == members.len() {
                assert(members.take(i + 1) =~= members);
            }
        }
        lemma_value_round(tokens, colon + 1, value, numbers);
        let landed = after_value(value, tokens, next);
        let seen = members.take(i);
        assert(!has_key(seen, key)) by {
            assert forall|j: int| 0 <= j < seen.len() implies (#[trigger] seen[j]).0 != key by {
                assert(seen[j] == members[j]);
            }
            lemma_key_position_is(seen, key, 0, seen.len() as int);
        }
        assert(seen.push((key, value)) =~= members.take(i + 1));
        lemma_object_round(tokens, from, members, i + 1, numbers);
        if i + 1 == members.len() {
            assert(members.take(i + 1) =~= members);
            assert(after_comma(tokens, landed) == next);
        } else {
            assert(tokens[next] is EndValue);
            lemma_members_layout(tokens, from, members, i + 1);
            let after = next + 1;
            lemma_holds_split(
                tokens,
                after,
                string_tokens(members[i + 1].0) + seq![JsonToken::EndKey],
                expected(members[i + 1].1),
            );
            lemma_holds_split(tokens, after, string_tokens(members[i + 1].0), seq![JsonToken::EndKey]);
            lemma_string_round(tokens, after, members[i + 1].0);
            assert(after_comma(tokens, landed) == after);
        }
    }
}

/// A value that is written out and parsed again is the same value, provided
/// that no object in it has a key twice and that each of its numbers is
/// written as a bare word from which `numbers` reads the number again.
pub proof fn lemma_round_trip(tree: JsonModel, numbers: spec_fn(Seq<char>) -> Option<NumberModel>)
    requires
        well_formed(tree),
        numbers_survive(tree, numbers),
    ensures
        parsed(json_text(tree), numbers) == Some(tree),
{
    lemma_tokens_of_text(tree, numbers);
    let tokens = expected(tree);
    assert(holds_at(tokens, 0, tokens));
    lemma_value_round(tokens, 0, tree, numbers);
}

} // verus!
