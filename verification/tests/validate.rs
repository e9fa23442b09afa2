use json_engine::{JsonDate, JsonNumber, JsonValidator, JsonValue, Numerals, Test};

fn read_number(text: &str) -> Option<JsonNumber> {
    match text.parse::<f64>() {
        Ok(x) => Some(JsonNumber { bits: x.to_bits(), text: format!("{}", x) }),
        Err(_) => None,
    }
}

fn number(x: f64) -> JsonValue {
    JsonValue::Number(JsonNumber { bits: x.to_bits(), text: format!("{}", x) })
}

fn text(s: &str) -> JsonValue {
    JsonValue::String(s.to_string())
}

fn object(members: Vec<(&str, JsonValue)>) -> JsonValue {
    JsonValue::Object(members.into_iter().map(|(k, v)| (k.to_string(), v)).collect())
}

fn any_number() -> JsonValidator {
    JsonValidator::Number(Box::new(Test::new(|_: &JsonNumber| true)))
}

fn positive() -> JsonValidator {
    JsonValidator::Number(Box::new(Test::new(|n: &JsonNumber| f64::from_bits(n.bits) > 0.0)))
}

fn passes(validator: &JsonValidator, value: &JsonValue) -> bool {
    validator.validate(value, &Numerals::new(read_number))
}

#[test]
fn object_validator_ignores_unlisted_keys() {
    let validator = JsonValidator::Object(vec![("a".to_string(), any_number())]);
    assert!(passes(&validator, &object(vec![("a", number(1.0)), ("b", text("extra"))])));
    assert!(!passes(&validator, &object(vec![("b", text("extra"))])));
}

#[test]
fn rubber_stamp_takes_anything() {
    let validator = JsonValidator::RubberStamp;
    assert!(passes(&validator, &JsonValue::Null));
    assert!(passes(&validator, &number(1.0)));
    assert!(passes(&validator, &object(vec![])));
}

#[test]
fn null_takes_null_only() {
    let validator = JsonValidator::Null;
    assert!(passes(&validator, &JsonValue::Null));
    assert!(!passes(&validator, &JsonValue::Boolean(false)));
    assert!(!passes(&validator, &JsonValue::Array(vec![JsonValue::Null])));
    assert!(!passes(&validator, &text("null")));
}

#[test]
fn boolean_test_sees_the_truth_value() {
    let validator = JsonValidator::Boolean(Box::new(Test::new(|b: &bool| *b)));
    assert!(passes(&validator, &JsonValue::Boolean(true)));
    assert!(!passes(&validator, &JsonValue::Boolean(false)));
    assert!(passes(&validator, &number(3.0)));
    assert!(!passes(&validator, &number(0.0)));
    assert!(passes(&validator, &text("yes")));
    assert!(!passes(&validator, &text("0")));
    assert!(passes(&validator, &JsonValue::Array(vec![text("yes")])));
    assert!(!passes(&validator, &JsonValue::Null));
    assert!(!passes(&validator, &object(vec![])));
    let negated = JsonValidator::Boolean(Box::new(Test::new(|b: &bool| !*b)));
    assert!(passes(&negated, &text("")));
    assert!(!passes(&negated, &JsonValue::Null));
}

#[test]
fn number_test_sees_the_number() {
    let validator = positive();
    assert!(passes(&validator, &number(2.0)));
    assert!(!passes(&validator, &number(-2.0)));
    assert!(passes(&validator, &JsonValue::Boolean(true)));
    assert!(!passes(&validator, &JsonValue::Boolean(false)));
    assert!(passes(&validator, &text("3.5")));
    assert!(!passes(&validator, &text("-3.5")));
    assert!(!passes(&validator, &text("abc")));
    assert!(!passes(&validator, &JsonValue::Null));
    assert!(!passes(&any_number(), &text("abc")));
    assert!(!passes(&any_number(), &JsonValue::Array(vec![])));
}

#[test]
fn string_test_sees_the_text_form() {
    let validator = JsonValidator::String(Box::new(Test::new(|s: &String| s.len() == 4)));
    assert!(passes(&validator, &text("abcd")));
    assert!(!passes(&validator, &text("abc")));
    assert!(passes(&validator, &JsonValue::Boolean(true)));
    assert!(!passes(&validator, &JsonValue::Boolean(false)));
    assert!(passes(&validator, &number(12.5)));
    assert!(!passes(&validator, &JsonValue::Null));
    assert!(!passes(&validator, &object(vec![])));
}

#[test]
fn integer_test_sees_the_integer() {
    let validator = JsonValidator::Integer(Box::new(Test::new(|i: &u64| *i % 2 == 0)));
    assert!(passes(&validator, &number(4.0)));
    assert!(!passes(&validator, &number(5.0)));
    assert!(!passes(&validator, &number(4.5)));
    assert!(passes(&validator, &text("10")));
    assert!(passes(&validator, &text("1e1")));
    assert!(passes(&validator, &JsonValue::Boolean(false)));
    assert!(!passes(&validator, &JsonValue::Boolean(true)));
    assert!(!passes(&validator, &text("ten")));
    assert!(!passes(&validator, &JsonValue::Null));
}

#[test]
fn date_test_sees_the_date() {
    let validator = JsonValidator::DateTime(Box::new(Test::new(|d: &JsonDate| d.year >= 2000)));
    assert!(passes(&validator, &text("2023-06-06")));
    assert!(!passes(&validator, &text("1999-06-06T10:00:00")));
    assert!(!passes(&validator, &text("2023-06")));
    assert!(!passes(&validator, &number(2023.0)));
}

#[test]
fn array_validator_tests_every_value() {
    let validator = JsonValidator::Array(Box::new(positive()));
    assert!(passes(&validator, &JsonValue::Array(vec![])));
    assert!(passes(&validator, &JsonValue::Array(vec![number(1.0), number(2.0)])));
    assert!(!passes(&validator, &JsonValue::Array(vec![number(1.0), number(-2.0)])));
    assert!(!passes(&validator, &JsonValue::Array(vec![number(1.0), JsonValue::Null])));
    assert!(passes(&validator, &number(1.0)));
    assert!(!passes(&validator, &number(-1.0)));
    assert!(!passes(&validator, &JsonValue::Null));
    assert!(passes(&validator, &object(vec![])));
    assert!(passes(&validator, &object(vec![("a", number(1.0)), ("b", text("2"))])));
    assert!(!passes(&validator, &object(vec![("a", number(1.0)), ("b", text("x"))])));
}

#[test]
fn object_validator_tests_listed_keys() {
    let validator = JsonValidator::Object(vec![
        ("id".to_string(), positive()),
        ("tags".to_string(), JsonValidator::Array(Box::new(JsonValidator::String(Box::new(Test::new(|s: &String| !s.is_empty())))))),
    ]);
    assert!(passes(
        &validator,
        &object(vec![("id", number(3.0)), ("tags", JsonValue::Array(vec![text("a"), text("b")]))])
    ));
    assert!(!passes(
        &validator,
        &object(vec![("id", number(3.0)), ("tags", JsonValue::Array(vec![text("a"), text("")]))])
    ));
    assert!(!passes(&validator, &object(vec![("id", number(-3.0)), ("tags", JsonValue::Array(vec![]))])));
    assert!(!passes(&validator, &object(vec![("id", number(3.0))])));
    assert!(!passes(&validator, &JsonValue::Array(vec![])));
    assert!(!passes(&validator, &JsonValue::Null));
    assert!(passes(&JsonValidator::Object(vec![]), &object(vec![("x", JsonValue::Null)])));
    assert!(!passes(&JsonValidator::Object(vec![]), &JsonValue::Null));
}

#[test]
fn of_two_entries_with_one_key_the_later_counts() {
    let validator = JsonValidator::Object(vec![
        ("a".to_string(), JsonValidator::Null),
        ("a".to_string(), any_number()),
    ]);
    assert!(passes(&validator, &object(vec![("a", number(1.0))])));
    assert!(!passes(&validator, &object(vec![("a", JsonValue::Null)])));
}

#[test]
fn or_validator_needs_one() {
    let validator = JsonValidator::Or(vec![JsonValidator::Null, positive()]);
    assert!(passes(&validator, &JsonValue::Null));
    assert!(passes(&validator, &number(1.0)));
    assert!(!passes(&validator, &number(-1.0)));
    assert!(!passes(&validator, &object(vec![])));
    assert!(!passes(&JsonValidator::Or(vec![]), &JsonValue::Null));
    assert!(!passes(&JsonValidator::Or(vec![]), &number(1.0)));
}
