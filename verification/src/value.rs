use crate::number::{JsonNumber, NumberModel};
use vstd::prelude::*;

verus! {

/// A JSON value.
#[derive(Debug, PartialEq)]
pub enum JsonValue {
    /// A null value
    Null,
    /// A boolean value
    Boolean(bool),
    /// A number value
    Number(JsonNumber),
    /// A string value
    String(String),
    /// An array value
    Array(Vec<JsonValue>),
    /// An object value: its members in order, each a key and a value
    Object(Vec<(String, JsonValue)>),
}

/// What a [`JsonValue`] holds.
pub enum JsonModel {
    /// Null
    Null,
    /// A truth value
    Boolean(bool),
    /// A number
    Number(NumberModel),
    /// A string, as its characters
    String(Seq<char>),
    /// The items of an array, in order
    Array(Seq<JsonModel>),
    /// The members of an object, in order
    Object(Seq<(Seq<char>, JsonModel)>),
}

/// What a value holds, level by level.
pub open spec fn model_of(value: JsonValue) -> JsonModel
    decreases value,
{
    match value {
        JsonValue::Null => JsonModel::Null,
        JsonValue::Boolean(b) => JsonModel::Boolean(b),
        JsonValue::Number(n) => JsonModel::Number(n@),
        JsonValue::String(s) => JsonModel::String(s@),
        JsonValue::Array(items) => JsonModel::Array(
            Seq::new(
                items@.len(),
                |i: int|
                    if 0 <= i < items@.len() {
                        model_of(items@[i])
                    } else {
                        JsonModel::Null
                    },
            ),
        ),
        JsonValue::Object(members) => JsonModel::Object(
            Seq::new(
                members@.len(),
                |i: int|
                    if 0 <= i < members@.len() {
                        (members@[i].0@, model_of(members@[i].1))
                    } else {
                        (Seq::empty(), JsonModel::Null)
                    },
            ),
        ),
    }
}

impl View for JsonValue {
    type V = JsonModel;

    open spec fn view(&self) -> JsonModel {
        model_of(*self)
    }
}

/// What a list of values holds.
pub open spec fn models(items: Seq<JsonValue>) -> Seq<JsonModel> {
    Seq::new(items.len(), |i: int| items[i]@)
}

/// What a list of members holds.
pub open spec fn member_models(members: Seq<(String, JsonValue)>) -> Seq<(Seq<char>, JsonModel)> {
    Seq::new(members.len(), |i: int| (members[i].0@, members[i].1@))
}

/// An array holds what its items hold.
pub proof fn lemma_array_view(items: Vec<JsonValue>)
    ensures
        JsonValue::Array(items)@ == JsonModel::Array(models(items@)),
{
    let v = JsonValue::Array(items);
    assert(v@->Array_0.len() == items@.len());
    assert(v@->Array_0 =~= models(items@));
}

/// An object holds the keys of its members and what their values hold.
pub proof fn lemma_object_view(members: Vec<(String, JsonValue)>)
    ensures
        JsonValue::Object(members)@ == JsonModel::Object(member_models(members@)),
{
    assert(JsonValue::Object(members)@->Object_0 =~= member_models(members@));
}

/// The index of the first member at or after `from` whose key is `key`, or
/// the number of members if there is none.
pub open spec fn key_position(members: Seq<(Seq<char>, JsonModel)>, key: Seq<char>, from: int) -> int
    decreases members.len() - from,
{
    if from < 0 || from >= members.len() {
        members.len() as int
    } else if members[from].0 == key {
        from
    } else {
        key_position(members, key, from + 1)
    }
}

/// Whether some member has the key `key`.
pub open spec fn has_key(members: Seq<(Seq<char>, JsonModel)>, key: Seq<char>) -> bool {
    key_position(members, key, 0) < members.len()
}

/// The value of the first member whose key is `key`.
pub open spec fn lookup(members: Seq<(Seq<char>, JsonModel)>, key: Seq<char>) -> Option<JsonModel> {
    if has_key(members, key) {
        Some(members[key_position(members, key, 0)].1)
    } else {
        None
    }
}

/// No two members have the same key.
pub open spec fn keys_distinct(members: Seq<(Seq<char>, JsonModel)>) -> bool {
    forall|i: int, j: int|
        0 <= i < j < members.len() ==> (#[trigger] members[i]).0 != (#[trigger] members[j]).0
}

/// Within every object of the tree, no two members have the same key.
pub open spec fn well_formed(tree: JsonModel) -> bool
    decreases tree,
{
    match tree {
        JsonModel::Array(items) => forall|i: int| 0 <= i < items.len() ==> well_formed(#[trigger] items[i]),
        JsonModel::Object(members) => keys_distinct(members) && forall|i: int|
            0 <= i < members.len() ==> well_formed((#[trigger] members[i]).1),
        _ => true,
    }
}

/// What [`key_position`] finds: the first member with the key.
pub proof fn lemma_key_position(members: Seq<(Seq<char>, JsonModel)>, key: Seq<char>, from: int)
    requires
        0 <= from <= members.len(),
    ensures
        from <= key_position(members, key, from) <= members.len(),
        key_position(members, key, from) < members.len() ==> members[key_position(
            members,
            key,
            from,
        )].0 == key,
        forall|j: int| from <= j < key_position(members, key, from) ==> (#[trigger] members[j]).0 != key,
    decreases members.len() - from,
{
    if from < members.len() && members[from].0 != key {
        lemma_key_position(members, key, from + 1);
    }
}

/// The first index from `from` on that holds `key` is what [`key_position`] gives.
pub proof fn lemma_key_position_is(members: Seq<(Seq<char>, JsonModel)>, key: Seq<char>, from: int, at: int)
    requires
        0 <= from <= at <= members.len(),
        forall|j: int| from <= j < at ==> (#[trigger] members[j]).0 != key,
        at < members.len() ==> members[at].0 == key,
    ensures
        key_position(members, key, from) == at,
    decreases at - from,
{
    if from < at {
        lemma_key_position_is(members, key, from + 1, at);
    }
}

/// Finds the first member with the key `key`.
pub fn find_member(members: &Vec<(String, JsonValue)>, key: &String) -> (r: Option<usize>)
    ensures
        match r {
            Some(i) => i < members@.len() && i == key_position(member_models(members@), key@, 0),
            None => !has_key(member_models(members@), key@),
        },
{
    let mut i: usize = 0;
    while i < members.len()
        invariant
            i <= members@.len(),
            key_position(member_models(members@), key@, i as int) == key_position(
                member_models(members@),
                key@,
                0,
            ),
        decreases members.len() - i,
    {
        if members[i].0 == *key {
            return Some(i);
        }
        i += 1;
    }
    None
}

impl Clone for JsonValue {
    fn clone(&self) -> (r: Self)
        ensures
            r@ == self@,
        decreases self,
    {
        match self {
            JsonValue::Null => JsonValue::Null,
            JsonValue::Boolean(b) => JsonValue::Boolean(*b),
            JsonValue::Number(n) => JsonValue::Number(n.clone()),
            JsonValue::String(s) => JsonValue::String(s.clone()),
            JsonValue::Array(items) => {
                let mut copy: Vec<JsonValue> = Vec::new();
                let mut i: usize = 0;
                while i < items.len()
                    invariant
                        i <= items.len(),
                        self == JsonValue::Array(*items),
                        copy@.len() == i,
                        forall|j: int| 0 <= j < i ==> copy@[j]@ == items@[j]@,
                    decreases items.len() - i,
                {
                    assert(decreases_to!(*self => self->Array_0));
                    copy.push(items[i].clone());
                    i += 1;
                }
                proof {
                    lemma_array_view(copy);
                    lemma_array_view(*items);
                    assert(models(copy@) =~= models(items@));
                }
                JsonValue::Array(copy)
            },
            JsonValue::Object(members) => {
                let mut copy: Vec<(String, JsonValue)> = Vec::new();
                let mut i: usize = 0;
                while i < members.len()
                    invariant
                        i <= members.len(),
                        self == JsonValue::Object(*members),
                        copy@.len() == i,
                        forall|j: int|
                            0 <= j < i ==> copy@[j].0@ == members@[j].0@ && copy@[j].1@
                                == members@[j].1@,
                    decreases members.len() - i,
                {
                    assert(decreases_to!(*self => self->Object_0));
                    assert(decreases_to!(members[i as int] => members[i as int].1));
                    let key = members[i].0.clone();
                    let value = members[i].1.clone();
                    copy.push((key, value));
                    i += 1;
                }
                proof {
                    lemma_object_view(copy);
                    lemma_object_view(*members);
                    assert(member_models(copy@) =~= member_models(members@));
                }
                JsonValue::Object(copy)
            },
        }
    }
}

} // verus!
