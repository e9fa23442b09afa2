use crate::coerce::{array_form, boolean_form, date_form, integer_form, number_form, string_form};
use crate::date::JsonDate;
use crate::number::{JsonNumber, NumberModel, Numerals};
use crate::value::{
    find_member, lemma_array_view, lemma_object_view, lookup, member_models, models, JsonModel,
    JsonValue,
};
use vstd::prelude::*;

verus! {

/// A test on values of one kind, for a leaf of a [`JsonValidator`]. What it
/// answers depends on what the value holds and on nothing else.
pub trait Predicate<T: View> {
    /// Whether a value passes.
    spec fn holds(&self, value: T::V) -> bool;

    /// Tests a value.
    fn test(&self, value: &T) -> (r: bool)
        ensures
            r == self.holds(value@),
    ;
}

/// The function can be put to every value, and what it answers depends on
/// what the value holds and on nothing else.
pub open spec fn plain_test<T: View, F: Fn(&T) -> bool>(function: F) -> bool {
    &&& forall|x: &T| #[trigger] call_requires(function, (x,))
    &&& forall|x: &T, y: &T, a: bool, b: bool|
        x@ == y@ && #[trigger] call_ensures(function, (x,), a) && #[trigger] call_ensures(
            function,
            (y,),
            b,
        ) ==> a == b
}

/// A function as a test.
pub struct Test<T: View, F: Fn(&T) -> bool> {
    pub(crate) function: F,
    pub(crate) of: core::marker::PhantomData<T>,
}

impl<T: View, F: Fn(&T) -> bool> Test<T, F> {
    #[verifier::type_invariant]
    spec fn plain(self) -> bool {
        plain_test::<T, F>(self.function)
    }

    /// The function that the test puts to a value.
    pub closed spec fn function(self) -> F {
        self.function
    }

    /// Makes a test of a function.
    pub fn new(function: F) -> (r: Self)
        requires
            plain_test::<T, F>(function),
        ensures
            r.function() == function,
    {
        Test { function, of: core::marker::PhantomData }
    }
}

impl<T: View, F: Fn(&T) -> bool> Predicate<T> for Test<T, F> {
    open spec fn holds(&self, value: T::V) -> bool {
        exists|x: &T| x@ == value && #[trigger] call_ensures(self.function(), (x,), true)
    }

    fn test(&self, value: &T) -> (r: bool) {
        proof {
            use_type_invariant(self);
        }
        let answer: bool = (self.function)(value);
        proof {
            assert(self.function() == self.function);
            assert(call_ensures(self.function, (value,), answer));
            if self.holds(value@) {
                let x = choose|x: &T| x@ == value@ && #[trigger] call_ensures(self.function, (x,), true);
                assert(call_ensures(self.function, (x,), true));
            }
        }
        answer
    }
}

/// The shape that a JSON value is asked to have.
pub enum JsonValidator {
    /// Any value passes
    RubberStamp,
    /// Only null passes
    Null,
    /// A value passes that has a truth value which passes the test
    Boolean(Box<dyn Predicate<bool>>),
    /// A value passes that is a number which passes the test
    Number(Box<dyn Predicate<JsonNumber>>),
    /// A value passes that has a text form which passes the test
    String(Box<dyn Predicate<String>>),
    /// A value passes that is an unsigned integer which passes the test
    Integer(Box<dyn Predicate<u64>>),
    /// A value passes that is a date which passes the test
    DateTime(Box<dyn Predicate<JsonDate>>),
    /// A value passes if each value of its list form passes the inner
    /// validator; so does every empty array
    Array(Box<JsonValidator>),
    /// An object passes if it has each listed key, with a value that passes
    /// the validator listed for the key; keys that are not listed are not
    /// looked at
    Object(Vec<(String, JsonValidator)>),
    /// A value passes if it passes one validator of the list
    Or(Vec<JsonValidator>),
}

/// No later entry of the list has the key of entry `i`. Of two entries with
/// one key only the later counts.
pub open spec fn counts(list: Seq<(String, JsonValidator)>, i: int) -> bool {
    forall|j: int| i < j < list.len() ==> (#[trigger] list[j]).0@ != list[i].0@
}

/// Whether `tree` passes `validator`, where `numbers` says which number a
/// string writes.
pub open spec fn accepts(
    validator: JsonValidator,
    tree: JsonModel,
    numbers: spec_fn(Seq<char>) -> Option<NumberModel>,
) -> bool
    decreases validator,
{
    match validator {
        JsonValidator::RubberStamp => true,
        JsonValidator::Null => tree is Null,
        JsonValidator::Boolean(test) => match boolean_form(tree) {
            Some(b) => test.holds(b),
            None => false,
        },
        JsonValidator::Number(test) => match number_form(tree, numbers) {
            Some(n) => test.holds(n),
            None => false,
        },
        JsonValidator::String(test) => match string_form(tree) {
            Some(s) => test.holds(s),
            None => false,
        },
        JsonValidator::Integer(test) => match integer_form(tree, numbers) {
            Some(i) => test.holds(i),
            None => false,
        },
        JsonValidator::DateTime(test) => match date_form(tree) {
            Some(d) => test.holds(d),
            None => false,
        },
        JsonValidator::Array(inner) => forall|i: int|
            0 <= i < array_form(tree).len() ==> accepts(*inner, #[trigger] array_form(tree)[i], numbers),
        JsonValidator::Object(list) => tree is Object && forall|i: int|
            0 <= i < list@.len() && counts(list@, i) ==> entry_accepts(
                #[trigger] list@[i],
                tree->Object_0,
                numbers,
            ),
        JsonValidator::Or(list) => exists|i: int|
            0 <= i < list@.len() && accepts(#[trigger] list@[i], tree, numbers),
    }
}

/// Whether the members have the key of the entry, with a value that passes the
/// validator of the entry.
pub open spec fn entry_accepts(
    entry: (String, JsonValidator),
    members: Seq<(Seq<char>, JsonModel)>,
    numbers: spec_fn(Seq<char>) -> Option<NumberModel>,
) -> bool
    decreases entry,
{
    match lookup(members, entry.0@) {
        Some(value) => accepts(entry.1, value, numbers),
        None => false,
    }
}

fn is_last_entry(list: &Vec<(String, JsonValidator)>, i: usize) -> (r: bool)
    requires
        i < list@.len(),
    ensures
        r == counts(list@, i as int),
{
    let len: usize = list.len();
    let mut j: usize = i + 1;
    while j < list.len()
        invariant
            i < j <= list@.len(),
            forall|k: int| i < k < j ==> (#[trigger] list@[k]).0@ != list@[i as int].0@,
        decreases list.len() - j,
    {
        if list[j].0 == list[i].0 {
            return false;
        }
        j += 1;
    }
    true
}

impl JsonValidator {
    /// Whether `input` has the shape that the validator asks for. `numbers` is
    /// asked for the number that a string writes.
    pub fn validate<R: Fn(&str) -> Option<JsonNumber>>(&self, input: &JsonValue, numbers: &Numerals<R>) -> (r: bool)
        ensures
            r == accepts(*self, input@, numbers.reading()),
        decreases self,
    {
        match self {
            JsonValidator::RubberStamp => true,
            JsonValidator::Null => input.is_null(),
            JsonValidator::Boolean(test) => match input.get_boolean() {
                None => false,
                Some(b) => test.test(&b),
            },
            JsonValidator::Number(test) => match input.get_number(numbers) {
                None => false,
                Some(n) => test.test(&n),
            },
            JsonValidator::String(test) => match input.get_string() {
                None => false,
                Some(s) => test.test(&s),
            },
            JsonValidator::Integer(test) => match input.get_integer(numbers) {
                None => false,
                Some(i) => test.test(&i),
            },
            JsonValidator::DateTime(test) => match input.get_json_date() {
                None => false,
                Some(d) => test.test(&d),
            },
            JsonValidator::Array(inner) => {
                match input {
                    JsonValue::Array(items) => {
                        proof {
                            lemma_array_view(*items);
                        }
                        let mut i: usize = 0;
                        while i < items.len()
                            invariant
                                i <= items@.len(),
                                *self == JsonValidator::Array(*inner),
                                array_form(input@) == models(items@),
                                forall|j: int|
                                    0 <= j < i ==> accepts(
                                        **inner,
                                        #[trigger] array_form(input@)[j],
                                        numbers.reading(),
                                    ),
                            decreases items.len() - i,
                        {
                            assert(decreases_to!(*self => self->Array_0));
                            if !inner.validate(&items[i], numbers) {
                                assert(!accepts(**inner, array_form(input@)[i as int], numbers.reading()));
                                return false;
                            }
                            i += 1;
                        }
                        true
                    },
                    JsonValue::Object(members) => {
                        proof {
                            lemma_object_view(*members);
                        }
                        let mut i: usize = 0;
                        while i < members.len()
                            invariant
                                i <= members@.len(),
                                *self == JsonValidator::Array(*inner),
                                array_form(input@).len() == members@.len(),
                                forall|j: int|
                                    0 <= j < members@.len() ==> array_form(input@)[j] == members@[j].1@,
                                forall|j: int|
                                    0 <= j < i ==> accepts(
                                        **inner,
                                        #[trigger] array_form(input@)[j],
                                        numbers.reading(),
                                    ),
                            decreases members.len() - i,
                        {
                            assert(decreases_to!(*self => self->Array_0));
                            if !inner.validate(&members[i].1, numbers) {
                                assert(!accepts(**inner, array_form(input@)[i as int], numbers.reading()));
                                return false;
                            }
                            i += 1;
                        }
                        true
                    },
                    _ => {
                        assert(array_form(input@) =~= seq![input@]);
                        assert(decreases_to!(*self => self->Array_0));
                        let r = inner.validate(input, numbers);
                        assert(array_form(input@)[0] == input@);
                        r
                    },
                }
            },
            JsonValidator::Object(list) => {
                match input {
                    JsonValue::Object(members) => {
                        proof {
                            lemma_object_view(*members);
                        }
                        let mut i: usize = 0;
                        while i < list.len()
                            invariant
                                i <= list@.len(),
                                *self == JsonValidator::Object(*list),
                                input@ == JsonModel::Object(member_models(members@)),
                                forall|j: int|
                                    0 <= j < i && counts(list@, j) ==> entry_accepts(
                                        #[trigger] list@[j],
                                        member_models(members@),
                                        numbers.reading(),
                                    ),
                            decreases list.len() - i,
                        {
                            if is_last_entry(list, i) {
                                let ghost entry = list@[i as int];
                                let passed: bool = match find_member(members, &list[i].0) {
                                    Some(at) => {
                                        assert(decreases_to!(*self => self->Object_0));
                                        assert(decreases_to!(list[i as int] => list[i as int].1));
                                        list[i].1.validate(&members[at].1, numbers)
                                    },
                                    None => false,
                                };
                                assert(passed == entry_accepts(
                                    entry,
                                    member_models(members@),
                                    numbers.reading(),
                                ));
                                if !passed {
                                    assert(!accepts(*self, input@, numbers.reading())) by {
                                        if accepts(*self, input@, numbers.reading()) {
                                            assert(counts(self->Object_0@, i as int));
                                            assert(entry_accepts(
                                                self->Object_0@[i as int],
                                                input@->Object_0,
                                                numbers.reading(),
                                            ));
                                        }
                                    }
                                    return false;
                                }
                            }
                            i += 1;
                        }
                        true
                    },
                    _ => false,
                }
            },
            JsonValidator::Or(list) => {
                let mut i: usize = 0;
                while i < list.len()
                    invariant
                        i <= list@.len(),
                        *self == JsonValidator::Or(*list),
                        forall|j: int| 0 <= j < i ==> !accepts(#[trigger] list@[j], input@, numbers.reading()),
                    decreases list.len() - i,
                {
                    assert(decreases_to!(*self => self->Or_0));
                    if list[i].validate(input, numbers) {
                        return true;
                    }
                    i += 1;
                }
                false
            },
        }
    }
}

} // verus!
