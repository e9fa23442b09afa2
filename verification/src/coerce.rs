use crate::date::{date_of, JsonDate};
use crate::number::{
    exact_integer, is_zero_pattern, number_of_bool, number_view, JsonNumber, NumberModel, Numerals,
};
use crate::text::{decimal, read_decimal};
use crate::value::{
    find_member, has_key, key_position, keys_distinct, lemma_array_view, lemma_key_position,
    lemma_key_position_is, lemma_object_view, lookup, member_models, models, well_formed, JsonModel,
    JsonValue,
};
use vstd::prelude::*;
use vstd::string::*;
use vstd::utf8::*;

verus! {

/// A value as a truth value: a boolean is itself, a number is true unless it
/// is zero, a string is true unless it is empty or `0`, an array of one item
/// is what that item is. Nothing else has a truth value.
pub open spec fn boolean_form(tree: JsonModel) -> Option<bool>
    decreases tree,
{
    match tree {
        JsonModel::Boolean(b) => Some(b),
        JsonModel::Number(n) => Some(!is_zero_pattern(n.bits)),
        JsonModel::String(s) => Some(s != "0"@ && s.len() != 0),
        JsonModel::Array(items) => if items.len() == 1 {
            boolean_form(items[0])
        } else {
            None
        },
        _ => None,
    }
}

/// A value as a number: a boolean is 1 or 0, a number is itself, a string is
/// the number that `numbers` finds in it, an array of one item is what that
/// item is. Nothing else is a number.
pub open spec fn number_form(tree: JsonModel, numbers: spec_fn(Seq<char>) -> Option<NumberModel>) -> Option<
    NumberModel,
>
    decreases tree,
{
    match tree {
        JsonModel::Boolean(b) => Some(number_of_bool(b)),
        JsonModel::Number(n) => Some(n),
        JsonModel::String(s) => numbers(s),
        JsonModel::Array(items) => if items.len() == 1 {
            number_form(items[0], numbers)
        } else {
            None
        },
        _ => None,
    }
}

/// A value as text: a boolean is `true` or `false`, a number is its
/// rendering, a string is itself, an array of one item is what that item is.
/// Nothing else is text.
pub open spec fn string_form(tree: JsonModel) -> Option<Seq<char>>
    decreases tree,
{
    match tree {
        JsonModel::Boolean(b) => Some(
            if b {
                "true"@
            } else {
                "false"@
            },
        ),
        JsonModel::Number(n) => Some(n.text),
        JsonModel::String(s) => Some(s),
        JsonModel::Array(items) => if items.len() == 1 {
            string_form(items[0])
        } else {
            None
        },
        _ => None,
    }
}

/// The values of the members of an object, in their order.
pub open spec fn member_values(members: Seq<(Seq<char>, JsonModel)>) -> Seq<JsonModel> {
    Seq::new(members.len(), |i: int| members[i].1)
}

/// A value as a list: an array is its items, an object is the values of its
/// members in their order, anything else is a list of itself alone.
pub open spec fn array_form(tree: JsonModel) -> Seq<JsonModel> {
    match tree {
        JsonModel::Array(items) => items,
        JsonModel::Object(members) => member_values(members),
        _ => seq![tree],
    }
}

/// The members of an object. Nothing else has members.
pub open spec fn object_form(tree: JsonModel) -> Option<Seq<(Seq<char>, JsonModel)>> {
    match tree {
        JsonModel::Object(members) => Some(members),
        _ => None,
    }
}

/// The unsigned integer of at most 64 bits that a text writes in decimal.
pub open spec fn integer_text(text: Option<Seq<char>>) -> Option<u64> {
    match text {
        Some(digits) => match decimal(encode_utf8(digits), u64::MAX as nat) {
            Some(v) => Some(v as u64),
            None => None,
        },
        None => None,
    }
}

/// A value as an unsigned integer: the integer that its text form writes in
/// decimal; where it has no text form or that writes no such integer, the
/// integer that its number form is exactly.
pub open spec fn integer_form(tree: JsonModel, numbers: spec_fn(Seq<char>) -> Option<NumberModel>) -> Option<
    u64,
> {
    match integer_text(string_form(tree)) {
        Some(v) => Some(v),
        None => match number_form(tree, numbers) {
            Some(n) => exact_integer(n.bits),
            None => None,
        },
    }
}

/// A value as a date: a string is the date that it writes. Nothing else is a
/// date.
pub open spec fn date_form(tree: JsonModel) -> Option<JsonDate> {
    match tree {
        JsonModel::String(s) => date_of(encode_utf8(s)),
        _ => None,
    }
}

/// The members after `(key, value)` is put among them: in the place of the
/// first member with that key, or at the end where no member has it.
pub open spec fn put(members: Seq<(Seq<char>, JsonModel)>, key: Seq<char>, value: JsonModel) -> Seq<
    (Seq<char>, JsonModel),
> {
    let i = key_position(members, key, 0);
    if i < members.len() {
        members.update(i, (key, value))
    } else {
        members.push((key, value))
    }
}

/// The members of the object built from `pairs`, each pair put in turn.
pub open spec fn built(pairs: Seq<(Seq<char>, JsonModel)>) -> Seq<(Seq<char>, JsonModel)>
    decreases pairs.len(),
{
    if pairs.len() == 0 {
        Seq::empty()
    } else {
        put(built(pairs.drop_last()), pairs.last().0, pairs.last().1)
    }
}

/// The value of the last pair with the key `key`.
pub open spec fn last_value(pairs: Seq<(Seq<char>, JsonModel)>, key: Seq<char>) -> Option<JsonModel>
    decreases pairs.len(),
{
    if pairs.len() == 0 {
        None
    } else if pairs.last().0 == key {
        Some(pairs.last().1)
    } else {
        last_value(pairs.drop_last(), key)
    }
}

/// Putting a pair keeps keys distinct, and changes the value of that key alone.
pub proof fn lemma_put(members: Seq<(Seq<char>, JsonModel)>, key: Seq<char>, value: JsonModel)
    requires
        keys_distinct(members),
    ensures
        keys_distinct(put(members, key, value)),
        lookup(put(members, key, value), key) == Some(value),
        forall|other: Seq<char>| other != key ==> lookup(put(members, key, value), other) == lookup(members, other),
{
    let i = key_position(members, key, 0);
    let after = put(members, key, value);
    lemma_key_position(members, key, 0);
    assert forall|a: int, b: int| 0 <= a < b < after.len() implies (#[trigger] after[a]).0 != (
    #[trigger] after[b]).0 by {
        if i < members.len() {
            assert(after[a].0 == members[a].0);
            assert(after[b].0 == members[b].0);
        } else {
            if b < members.len() {
                assert(after[a].0 == members[a].0);
                assert(after[b].0 == members[b].0);
            } else {
                assert(after[a] == members[a]);
            }
        }
    }
    assert(forall|j: int| 0 <= j < i ==> (#[trigger] after[j]).0 != key) by {
        assert forall|j: int| 0 <= j < i implies (#[trigger] after[j]).0 != key by {
            assert(after[j] == members[j]);
        }
    }
    lemma_key_position_is(after, key, 0, i);
    assert forall|other: Seq<char>| other != key implies lookup(after, other) == lookup(members, other) by {
        let p = key_position(members, other, 0);
        lemma_key_position(members, other, 0);
        assert forall|j: int| 0 <= j < p implies (#[trigger] after[j]).0 != other by {
            if j < members.len() && j != i {
                assert(after[j] == members[j]);
            }
        }
        if p < members.len() {
            assert(after[p] == members[p]);
            lemma_key_position_is(after, other, 0, p);
        } else {
            assert forall|j: int| 0 <= j < after.len() implies (#[trigger] after[j]).0 != other by {
                if j < members.len() && j != i {
                    assert(after[j] == members[j]);
                }
            }
            lemma_key_position_is(after, other, 0, after.len() as int);
        }
    }
}

/// An object built from pairs has no key twice, and holds for each key the
/// value of the last pair with that key.
pub proof fn lemma_built(pairs: Seq<(Seq<char>, JsonModel)>, key: Seq<char>)
    ensures
        keys_distinct(built(pairs)),
        lookup(built(pairs), key) == last_value(pairs, key),
    decreases pairs.len(),
{
    if pairs.len() > 0 {
        lemma_built(pairs.drop_last(), key);
        lemma_put(built(pairs.drop_last()), pairs.last().0, pairs.last().1);
    }
}

/// Every member of an object built from pairs is one of the pairs.
pub proof fn lemma_built_from(pairs: Seq<(Seq<char>, JsonModel)>)
    ensures
        forall|j: int|
            0 <= j < built(pairs).len() ==> exists|i: int|
                0 <= i < pairs.len() && pairs[i] == #[trigger] built(pairs)[j],
    decreases pairs.len(),
{
    if pairs.len() > 0 {
        let head = pairs.drop_last();
        let last = pairs.last();
        let before = built(head);
        lemma_built_from(head);
        lemma_key_position(before, last.0, 0);
        assert forall|j: int| 0 <= j < built(pairs).len() implies exists|i: int|
            0 <= i < pairs.len() && pairs[i] == #[trigger] built(pairs)[j] by {
            if j < before.len() && built(pairs)[j] == before[j] {
                let i = choose|i: int| 0 <= i < head.len() && head[i] == before[j];
                assert(pairs[i] == built(pairs)[j]);
            } else {
                assert(built(pairs)[j] == (last.0, last.1));
                assert(pairs[pairs.len() - 1] == built(pairs)[j]);
            }
        }
    }
}

impl JsonValue {
    /// Makes an object of a list of keys and values. Where a key comes more
    /// than once, its last value stands, in the place of its first. The
    /// object has no key twice.
    pub fn build_object(input: Vec<(String, JsonValue)>) -> (r: Self)
        ensures
            r@ == JsonModel::Object(built(member_models(input@))),
            keys_distinct(built(member_models(input@))),
            (forall|i: int| 0 <= i < input@.len() ==> well_formed((#[trigger] input@[i]).1@))
                ==> well_formed(r@),
    {
        let mut members: Vec<(String, JsonValue)> = Vec::new();
        let ghost pairs = member_models(input@);
        let mut i: usize = 0;
        assert(pairs.take(0) =~= Seq::<(Seq<char>, JsonModel)>::empty());
        assert(member_models(members@) =~= built(pairs.take(0)));
        while i < input.len()
            invariant
                i <= input@.len(),
                pairs == member_models(input@),
                member_models(members@) == built(pairs.take(i as int)),
            decreases input.len() - i,
        {
            let key = input[i].0.clone();
            let value = input[i].1.clone();
            let ghost before = member_models(members@);
            proof {
                assert(pairs.take(i + 1).drop_last() =~= pairs.take(i as int));
                assert(pairs.take(i + 1).last() == (key@, value@));
            }
            match find_member(&members, &key) {
                Some(j) => {
                    members.set(j, (key, value));
                    assert(member_models(members@) =~= before.update(j as int, (key@, value@)));
                },
                None => {
                    members.push((key, value));
                    assert(member_models(members@) =~= before.push((key@, value@)));
                },
            }
            i += 1;
        }
        proof {
            assert(pairs.take(i as int) =~= pairs);
            lemma_object_view(members);
            lemma_built(pairs, Seq::empty());
            lemma_built_from(pairs);
            if forall|i: int| 0 <= i < input@.len() ==> well_formed((#[trigger] input@[i]).1@) {
                assert forall|j: int| 0 <= j < built(pairs).len() implies well_formed(
                    (#[trigger] built(pairs)[j]).1,
                ) by {
                    let i = choose|i: int| 0 <= i < pairs.len() && pairs[i] == built(pairs)[j];
                    assert(pairs[i].1 == input@[i].1@);
                }
            }
        }
        JsonValue::Object(members)
    }

    /// The value as a truth value, if it has one.
    pub fn get_boolean(&self) -> (r: Option<bool>)
        ensures
            r == boolean_form(self@),
        decreases self,
    {
        match self {
            JsonValue::Boolean(b) => Some(*b),
            JsonValue::Number(n) => Some(!n.is_zero()),
            JsonValue::String(s) => Some(!(*s == "0".to_owned()) && !s.as_str().is_empty()),
            JsonValue::Array(items) => {
                proof {
                    lemma_array_view(*items);
                }
                if items.len() == 1 {
                    assert(decreases_to!(*self => self->Array_0));
                    items[0].get_boolean()
                } else {
                    None
                }
            },
            _ => None,
        }
    }

    /// The value as a number, if it is one. `numbers` is asked for the
    /// number that a string writes.
    pub fn get_number<R: Fn(&str) -> Option<JsonNumber>>(&self, numbers: &Numerals<R>) -> (r: Option<JsonNumber>)
        ensures
            number_view(r) == number_form(self@, numbers.reading()),
        decreases self,
    {
        match self {
            JsonValue::Boolean(b) => Some(JsonNumber::from_bool(*b)),
            JsonValue::Number(n) => Some(n.clone()),
            JsonValue::String(s) => numbers.read(s.as_str()),
            JsonValue::Array(items) => {
                proof {
                    lemma_array_view(*items);
                }
                if items.len() == 1 {
                    assert(decreases_to!(*self => self->Array_0));
                    items[0].get_number(numbers)
                } else {
                    None
                }
            },
            _ => None,
        }
    }

    /// The value as text, if it has a text form. The text is a copy.
    pub fn get_string(&self) -> (r: Option<String>)
        ensures
            match r {
                Some(text) => string_form(self@) == Some(text@),
                None => string_form(self@) is None,
            },
        decreases self,
    {
        match self {
            JsonValue::Boolean(b) => Some(
                if *b {
                    "true".to_owned()
                } else {
                    "false".to_owned()
                },
            ),
            JsonValue::Number(n) => Some(n.text.clone()),
            JsonValue::String(s) => Some(s.clone()),
            JsonValue::Array(items) => {
                proof {
                    lemma_array_view(*items);
                }
                if items.len() == 1 {
                    assert(decreases_to!(*self => self->Array_0));
                    items[0].get_string()
                } else {
                    None
                }
            },
            _ => None,
        }
    }

    /// The value as a list of values, each a copy.
    pub fn get_array(&self) -> (r: Vec<JsonValue>)
        ensures
            models(r@) == array_form(self@),
    {
        match self {
            JsonValue::Array(items) => {
                let mut copy: Vec<JsonValue> = Vec::new();
                let mut i: usize = 0;
                while i < items.len()
                    invariant
                        i <= items@.len(),
                        copy@.len() == i,
                        forall|j: int| 0 <= j < i ==> copy@[j]@ == items@[j]@,
                    decreases items.len() - i,
                {
                    copy.push(items[i].clone());
                    i += 1;
                }
                proof {
                    lemma_array_view(*items);
                    assert(models(copy@) =~= models(items@));
                }
                copy
            },
            JsonValue::Object(members) => {
                let mut copy: Vec<JsonValue> = Vec::new();
                let mut i: usize = 0;
                while i < members.len()
                    invariant
                        i <= members@.len(),
                        copy@.len() == i,
                        forall|j: int| 0 <= j < i ==> copy@[j]@ == members@[j].1@,
                    decreases members.len() - i,
                {
                    copy.push(members[i].1.clone());
                    i += 1;
                }
                proof {
                    lemma_object_view(*members);
                    assert(models(copy@) =~= member_values(member_models(members@)));
                }
                copy
            },
            _ => {
                let mut copy: Vec<JsonValue> = Vec::new();
                copy.push(self.clone());
                assert(models(copy@) =~= seq![self@]);
                copy
            },
        }
    }

    /// The members of an object, each a copy.
    pub fn get_object(&self) -> (r: Option<Vec<(String, JsonValue)>>)
        ensures
            match r {
                Some(members) => object_form(self@) == Some(member_models(members@)),
                None => object_form(self@) is None,
            },
    {
        match self {
            JsonValue::Object(members) => {
                let mut copy: Vec<(String, JsonValue)> = Vec::new();
                let mut i: usize = 0;
                while i < members.len()
                    invariant
                        i <= members@.len(),
                        copy@.len() == i,
                        forall|j: int|
                            0 <= j < i ==> copy@[j].0@ == members@[j].0@ && copy@[j].1@
                                == members@[j].1@,
                    decreases members.len() - i,
                {
                    copy.push((members[i].0.clone(), members[i].1.clone()));
                    i += 1;
                }
                proof {
                    lemma_object_view(*members);
                    assert(member_models(copy@) =~= member_models(members@));
                }
                Some(copy)
            },
            _ => None,
        }
    }

    /// Whether the value is null.
    pub fn is_null(&self) -> (r: bool)
        ensures
            r == (self@ is Null),
    {
        match self {
            JsonValue::Null => true,
            _ => false,
        }
    }

    /// The value as an unsigned integer: the integer that its text form
    /// writes, or else the integer that its number form is exactly. `numbers` is
    /// asked for the number that a string writes.
    pub fn get_integer<R: Fn(&str) -> Option<JsonNumber>>(&self, numbers: &Numerals<R>) -> (r: Option<u64>)
        ensures
            r == integer_form(self@, numbers.reading()),
    {
        let written: Option<u64> = match self.get_string() {
            Some(text) => read_decimal(text.as_str().as_bytes(), u64::MAX),
            None => None,
        };
        match written {
            Some(v) => Some(v),
            None => match self.get_number(numbers) {
                Some(n) => n.to_integer(),
                None => None,
            },
        }
    }

    /// The date that a string writes.
    pub fn get_json_date(&self) -> (r: Option<JsonDate>)
        ensures
            r == date_form(self@),
    {
        match self {
            JsonValue::String(text) => JsonDate::from_str(text.as_str()),
            _ => None,
        }
    }
}

} // verus!
