use crate::text::{false_text, null_text, text_from_utf8, true_text};
use crate::value::{lemma_array_view, lemma_object_view, member_models, models, JsonModel, JsonValue};
use vstd::prelude::*;
use vstd::string::*;
use vstd::utf8::*;

verus! {

/// How one byte of a string is written between quotes: `"`, `\`, `/`,
/// backspace, form feed, line feed, carriage return and tab as a backslash and
/// a letter, every other byte as it is.
pub open spec fn escaped_byte(byte: u8) -> Seq<u8> {
    if byte == 0x22 {
        seq![0x5Cu8, 0x22u8]
    } else if byte == 0x5C {
        seq![0x5Cu8, 0x5Cu8]
    } else if byte == 0x2F {
        seq![0x5Cu8, 0x2Fu8]
    } else if byte == 0x08 {
        seq![0x5Cu8, 0x62u8]
    } else if byte == 0x0C {
        seq![0x5Cu8, 0x66u8]
    } else if byte == 0x0A {
        seq![0x5Cu8, 0x6Eu8]
    } else if byte == 0x0D {
        seq![0x5Cu8, 0x72u8]
    } else if byte == 0x09 {
        seq![0x5Cu8, 0x74u8]
    } else {
        seq![byte]
    }
}

/// The bytes of a string, each written as [`escaped_byte`] says.
pub open spec fn escaped(bytes: Seq<u8>) -> Seq<u8>
    decreases bytes.len(),
{
    if bytes.len() == 0 {
        Seq::empty()
    } else {
        escaped(bytes.drop_last()) + escaped_byte(bytes.last())
    }
}

/// A string as JSON text: its UTF-8 bytes, escaped, between two quotes.
pub open spec fn quoted(text: Seq<char>) -> Seq<u8> {
    seq![0x22u8] + escaped(encode_utf8(text)) + seq![0x22u8]
}

/// A value as compact JSON text, in UTF-8.
///
/// A number is written by its own rendering. The items of an array stand
/// between `[` and `]` with a comma between two of them; the members of an
/// object stand between `{` and `}` in their order, each as its key, a colon,
/// a space and its value, with a comma between two of them.
pub open spec fn json_text(tree: JsonModel) -> Seq<u8>
    decreases tree,
{
    match tree {
        JsonModel::Null => null_text(),
        JsonModel::Boolean(b) => if b {
            true_text()
        } else {
            false_text()
        },
        JsonModel::Number(n) => encode_utf8(n.text),
        JsonModel::String(s) => quoted(s),
        JsonModel::Array(items) => seq![0x5Bu8] + items_text(items) + seq![0x5Du8],
        JsonModel::Object(members) => seq![0x7Bu8] + members_text(members) + seq![0x7Du8],
    }
}

/// The items of an array, with a comma between two of them.
pub open spec fn items_text(items: Seq<JsonModel>) -> Seq<u8>
    decreases items,
{
    if items.len() == 0 {
        Seq::empty()
    } else if items.len() == 1 {
        json_text(items[0])
    } else {
        items_text(items.drop_last()) + seq![0x2Cu8] + json_text(items.last())
    }
}

/// One member of an object: `"key": value`.
pub open spec fn member_text(member: (Seq<char>, JsonModel)) -> Seq<u8>
    decreases member,
{
    quoted(member.0) + seq![0x3Au8, 0x20u8] + json_text(member.1)
}

/// The members of an object, with a comma between two of them.
pub open spec fn members_text(members: Seq<(Seq<char>, JsonModel)>) -> Seq<u8>
    decreases members,
{
    if members.len() == 0 {
        Seq::empty()
    } else if members.len() == 1 {
        member_text(members[0])
    } else {
        members_text(members.drop_last()) + seq![0x2Cu8] + member_text(members.last())
    }
}

/// Escaping goes byte by byte: two runs of bytes can be escaped apart.
pub proof fn lemma_escaped_concat(a: Seq<u8>, b: Seq<u8>)
    ensures
        escaped(a + b) == escaped(a) + escaped(b),
    decreases b.len(),
{
    if b.len() == 0 {
        assert(a + b =~= a);
        assert(escaped(a) + escaped(b) =~= escaped(a));
    } else {
        lemma_escaped_concat(a, b.drop_last());
        assert((a + b).drop_last() =~= a + b.drop_last());
        assert(escaped(a + b) =~= escaped(a) + escaped(b));
    }
}

proof fn lemma_escaped_one(byte: u8)
    ensures
        escaped(seq![byte]) == escaped_byte(byte),
{
    assert(seq![byte].drop_last() =~= Seq::<u8>::empty());
    assert(escaped(Seq::<u8>::empty()) =~= Seq::<u8>::empty());
    assert(escaped(seq![byte]) =~= escaped_byte(byte));
}

proof fn lemma_ascii_valid(bytes: Seq<u8>)
    requires
        forall|i: int| 0 <= i < bytes.len() ==> bytes[i] <= 0x7f,
    ensures
        valid_utf8(bytes),
{
    assert(bytes.subrange(0, 0) =~= Seq::<u8>::empty());
    assert(partial_valid_utf8(bytes, 0));
    assert forall|i: int| 0 <= 0 <= i < bytes.len() <= bytes.len() implies #[trigger] is_leading_byte_width_1(
        bytes[i],
    ) by {}
    partial_valid_utf8_extend_ascii_block(bytes, 0, bytes.len() as int);
    assert(bytes.subrange(0, bytes.len() as int) =~= bytes);
}

proof fn lemma_escaped_high(bytes: Seq<u8>)
    requires
        forall|i: int| 0 <= i < bytes.len() ==> bytes[i] >= 0x80,
    ensures
        escaped(bytes) == bytes,
    decreases bytes.len(),
{
    if bytes.len() > 0 {
        lemma_escaped_high(bytes.drop_last());
        assert(escaped(bytes) =~= bytes);
    }
}

/// Escaping keeps UTF-8 well formed.
pub proof fn lemma_escaped_valid(bytes: Seq<u8>)
    requires
        valid_utf8(bytes),
    ensures
        valid_utf8(escaped(bytes)),
    decreases bytes.len(),
{
    if bytes.len() > 0 {
        let first = take_first_scalar(bytes);
        let rest = pop_first_scalar(bytes);
        assert(bytes =~= first + rest);
        lemma_escaped_concat(first, rest);
        lemma_escaped_valid(rest);
        if is_leading_byte_width_1(bytes[0]) {
            assert(first =~= seq![bytes[0]]);
            lemma_escaped_one(bytes[0]);
            lemma_ascii_valid(escaped(first));
        } else {
            lemma_escaped_high(first);
            assert(valid_utf8(first)) by {
                reveal_with_fuel(valid_utf8, 2);
                assert(pop_first_scalar(first) =~= Seq::<u8>::empty());
            }
        }
        valid_utf8_concat(escaped(first), escaped(rest));
    }
}

proof fn lemma_quoted_valid(text: Seq<char>)
    ensures
        valid_utf8(quoted(text)),
{
    encode_utf8_valid_utf8(text);
    lemma_escaped_valid(encode_utf8(text));
    lemma_ascii_valid(seq![0x22u8]);
    valid_utf8_concat(seq![0x22u8], escaped(encode_utf8(text)));
    valid_utf8_concat(seq![0x22u8] + escaped(encode_utf8(text)), seq![0x22u8]);
}

/// The text of a value is well-formed UTF-8.
pub proof fn lemma_json_text_valid(tree: JsonModel)
    ensures
        valid_utf8(json_text(tree)),
    decreases tree,
{
    match tree {
        JsonModel::Null => {
            lemma_ascii_valid(null_text());
        },
        JsonModel::Boolean(b) => {
            lemma_ascii_valid(true_text());
            lemma_ascii_valid(false_text());
        },
        JsonModel::Number(n) => {
            encode_utf8_valid_utf8(n.text);
        },
        JsonModel::String(s) => {
            lemma_quoted_valid(s);
        },
        JsonModel::Array(items) => {
            lemma_items_text_valid(items);
            lemma_ascii_valid(seq![0x5Bu8]);
            lemma_ascii_valid(seq![0x5Du8]);
            valid_utf8_concat(seq![0x5Bu8], items_text(items));
            valid_utf8_concat(seq![0x5Bu8] + items_text(items), seq![0x5Du8]);
        },
        JsonModel::Object(members) => {
            lemma_members_text_valid(members);
            lemma_ascii_valid(seq![0x7Bu8]);
            lemma_ascii_valid(seq![0x7Du8]);
            valid_utf8_concat(seq![0x7Bu8], members_text(members));
            valid_utf8_concat(seq![0x7Bu8] + members_text(members), seq![0x7Du8]);
        },
    }
}

proof fn lemma_items_text_valid(items: Seq<JsonModel>)
    ensures
        valid_utf8(items_text(items)),
    decreases items,
{
    if items.len() == 0 {
    } else if items.len() == 1 {
        lemma_json_text_valid(items[0]);
    } else {
        lemma_items_text_valid(items.drop_last());
        lemma_json_text_valid(items.last());
        lemma_ascii_valid(seq![0x2Cu8]);
        valid_utf8_concat(items_text(items.drop_last()), seq![0x2Cu8]);
        valid_utf8_concat(items_text(items.drop_last()) + seq![0x2Cu8], json_text(items.last()));
    }
}

proof fn lemma_member_text_valid(member: (Seq<char>, JsonModel))
    ensures
        valid_utf8(member_text(member)),
    decreases member,
{
    lemma_quoted_valid(member.0);
    lemma_json_text_valid(member.1);
    lemma_ascii_valid(seq![0x3Au8, 0x20u8]);
    valid_utf8_concat(quoted(member.0), seq![0x3Au8, 0x20u8]);
    valid_utf8_concat(quoted(member.0) + seq![0x3Au8, 0x20u8], json_text(member.1));
}

proof fn lemma_members_text_valid(members: Seq<(Seq<char>, JsonModel)>)
    ensures
        valid_utf8(members_text(members)),
    decreases members,
{
    if members.len() == 0 {
    } else if members.len() == 1 {
        lemma_member_text_valid(members[0]);
    } else {
        lemma_members_text_valid(members.drop_last());
        lemma_member_text_valid(members.last());
        lemma_ascii_valid(seq![0x2Cu8]);
        valid_utf8_concat(members_text(members.drop_last()), seq![0x2Cu8]);
        valid_utf8_concat(
            members_text(members.drop_last()) + seq![0x2Cu8],
            member_text(members.last()),
        );
    }
}

fn append_bytes(out: &mut Vec<u8>, bytes: &[u8])
    ensures
        final(out)@ == old(out)@ + bytes@,
{
    let mut i: usize = 0;
    assert(bytes@.take(0) =~= Seq::<u8>::empty());
    assert(out@ =~= old(out)@ + bytes@.take(0));
    while i < bytes.len()
        invariant
            i <= bytes@.len(),
            out@ == old(out)@ + bytes@.take(i as int),
        decreases bytes.len() - i,
    {
        out.push(bytes[i]);
        assert(bytes@.take(i + 1) =~= bytes@.take(i as int).push(bytes@[i as int]));
        assert(out@ =~= old(out)@ + bytes@.take(i + 1));
        i += 1;
    }
    assert(bytes@.take(i as int) =~= bytes@);
}

fn write_escaped(out: &mut Vec<u8>, byte: u8)
    ensures
        final(out)@ == old(out)@ + escaped_byte(byte),
{
    if byte == 0x22 {
        out.push(0x5C);
        out.push(0x22);
    } else if byte == 0x5C {
        out.push(0x5C);
        out.push(0x5C);
    } else if byte == 0x2F {
        out.push(0x5C);
        out.push(0x2F);
    } else if byte == 0x08 {
        out.push(0x5C);
        out.push(0x62);
    } else if byte == 0x0C {
        out.push(0x5C);
        out.push(0x66);
    } else if byte == 0x0A {
        out.push(0x5C);
        out.push(0x6E);
    } else if byte == 0x0D {
        out.push(0x5C);
        out.push(0x72);
    } else if byte == 0x09 {
        out.push(0x5C);
        out.push(0x74);
    } else {
        out.push(byte);
    }
    assert(out@ =~= old(out)@ + escaped_byte(byte));
}

fn write_quoted(out: &mut Vec<u8>, text: &str)
    ensures
        final(out)@ == old(out)@ + quoted(text@),
{
    let bytes = text.as_bytes();
    out.push(0x22);
    let mut i: usize = 0;
    assert(bytes@.take(0) =~= Seq::<u8>::empty());
    assert(out@ =~= old(out)@ + seq![0x22u8] + escaped(bytes@.take(0)));
    while i < bytes.len()
        invariant
            i <= bytes@.len(),
            out@ == old(out)@ + seq![0x22u8] + escaped(bytes@.take(i as int)),
        decreases bytes.len() - i,
    {
        write_escaped(out, bytes[i]);
        assert(bytes@.take(i + 1).drop_last() =~= bytes@.take(i as int));
        assert(out@ =~= old(out)@ + seq![0x22u8] + escaped(bytes@.take(i + 1)));
        i += 1;
    }
    assert(bytes@.take(i as int) =~= bytes@);
    out.push(0x22);
    assert(out@ =~= old(out)@ + quoted(text@));
}

fn write_json(value: &JsonValue, out: &mut Vec<u8>)
    ensures
        final(out)@ == old(out)@ + json_text(value@),
    decreases value,
{
    match value {
        JsonValue::Null => {
            out.push(0x6E);
            out.push(0x75);
            out.push(0x6C);
            out.push(0x6C);
            assert(out@ =~= old(out)@ + null_text());
        },
        JsonValue::Boolean(b) => {
            if *b {
                out.push(0x74);
                out.push(0x72);
                out.push(0x75);
                out.push(0x65);
                assert(out@ =~= old(out)@ + true_text());
            } else {
                out.push(0x66);
                out.push(0x61);
                out.push(0x6C);
                out.push(0x73);
                out.push(0x65);
                assert(out@ =~= old(out)@ + false_text());
            }
        },
        JsonValue::Number(n) => {
            append_bytes(out, n.text.as_str().as_bytes());
        },
        JsonValue::String(s) => {
            write_quoted(out, s.as_str());
        },
        JsonValue::Array(items) => {
            proof {
                lemma_array_view(*items);
            }
            let ghost all = models(items@);
            out.push(0x5B);
            let mut i: usize = 0;
            assert(all.take(0) =~= Seq::<JsonModel>::empty());
            assert(out@ =~= old(out)@ + seq![0x5Bu8] + items_text(all.take(0)));
            while i < items.len()
                invariant
                    i <= items@.len(),
                    all == models(items@),
                    *value == JsonValue::Array(*items),
                    out@ == old(out)@ + seq![0x5Bu8] + items_text(all.take(i as int)),
                decreases items.len() - i,
            {
                let ghost before = out@;
                if i > 0 {
                    out.push(0x2C);
                }
                let ghost between = out@;
                assert(decreases_to!(*value => value->Array_0));
                write_json(&items[i], out);
                proof {
                    let now = all.take(i + 1);
                    assert(now.drop_last() =~= all.take(i as int));
                    assert(now.last() == items@[i as int]@);
                    if i == 0 {
                        assert(out@ =~= old(out)@ + seq![0x5Bu8] + items_text(now));
                    } else {
                        assert(out@ =~= old(out)@ + seq![0x5Bu8] + items_text(now));
                    }
                }
                i += 1;
            }
            assert(all.take(i as int) =~= all);
            out.push(0x5D);
            assert(out@ =~= old(out)@ + json_text(value@));
        },
        JsonValue::Object(members) => {
            proof {
                lemma_object_view(*members);
            }
            let ghost all = member_models(members@);
            out.push(0x7B);
            let mut i: usize = 0;
            assert(all.take(0) =~= Seq::<(Seq<char>, JsonModel)>::empty());
            assert(out@ =~= old(out)@ + seq![0x7Bu8] + members_text(all.take(0)));
            while i < members.len()
                invariant
                    i <= members@.len(),
                    all == member_models(members@),
                    *value == JsonValue::Object(*members),
                    out@ == old(out)@ + seq![0x7Bu8] + members_text(all.take(i as int)),
                decreases members.len() - i,
            {
                if i > 0 {
                    out.push(0x2C);
                }
                let ghost between = out@;
                write_quoted(out, members[i].0.as_str());
                out.push(0x3A);
                out.push(0x20);
                assert(decreases_to!(*value => value->Object_0));
                assert(decreases_to!(members[i as int] => members[i as int].1));
                write_json(&members[i].1, out);
                proof {
                    let now = all.take(i + 1);
                    assert(now.drop_last() =~= all.take(i as int));
                    assert(now.last() == (members@[i as int].0@, members@[i as int].1@));
                    assert(out@ =~= between + member_text(now.last()));
                    if i == 0 {
                        assert(out@ =~= old(out)@ + seq![0x7Bu8] + members_text(now));
                    } else {
                        assert(out@ =~= old(out)@ + seq![0x7Bu8] + members_text(now));
                    }
                }
                i += 1;
            }
            assert(all.take(i as int) =~= all);
            out.push(0x7D);
            assert(out@ =~= old(out)@ + json_text(value@));
        },
    }
}

impl JsonValue {
    /// Writes a string as JSON text: between quotes, with `"`, `\`, `/`,
    /// backspace, form feed, line feed, carriage return and tab escaped and
    /// every other byte as it is.
    pub fn stringify_actual_string(input: &str) -> (r: String)
        ensures
            encode_utf8(r@) == quoted(input@),
    {
        let mut out: Vec<u8> = Vec::new();
        write_quoted(&mut out, input);
        proof {
            lemma_quoted_valid(input@);
            assert(out@ =~= quoted(input@));
            decode_utf8_encode_utf8(out@);
        }
        text_from_utf8(out).unwrap()
    }

    /// Writes the value as compact JSON text.
    pub fn stringify(&self) -> (r: String)
        ensures
            encode_utf8(r@) == json_text(self@),
    {
        let mut out: Vec<u8> = Vec::new();
        write_json(self, &mut out);
        proof {
            lemma_json_text_valid(self@);
            assert(out@ =~= json_text(self@));
            decode_utf8_encode_utf8(out@);
        }
        text_from_utf8(out).unwrap()
    }
}

} // verus!
