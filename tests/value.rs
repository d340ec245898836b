use lox::error::Error;
use lox::value::{equality, plus, Equality, Sum, Value};

type V = Value<f64>;

#[test]
fn plus_number_and_string_is_type_error() {
    assert_eq!(
        plus(V::Number(1.0), V::String("a".to_string()), 3),
        Err(Error::TypeError { line: 3, message: "Invalid operand types for '+'" })
    );
    assert_eq!(
        plus(V::Boolean(true), V::Nil, 1),
        Err(Error::TypeError { line: 1, message: "Invalid operand types for '+'" })
    );
}

#[test]
fn plus_strings_concatenates() {
    assert_eq!(
        plus(V::String("a".to_string()), V::String("b".to_string()), 1),
        Ok(Sum::Text("ab".to_string()))
    );
    assert_eq!(plus(V::Number(1.0), V::Number(2.0), 1), Ok(Sum::Numbers(1.0, 2.0)));
}

#[test]
fn equality_across_kinds_is_false() {
    assert_eq!(equality(V::Number(1.0), V::String("1".to_string())), Equality::Decided(false));
    assert_eq!(equality(V::Nil, V::Boolean(false)), Equality::Decided(false));
    assert_eq!(equality(V::Nil, V::Nil), Equality::Decided(true));
    assert_eq!(
        equality(V::String("x".to_string()), V::String("x".to_string())),
        Equality::Decided(true)
    );
    assert_eq!(equality(V::Boolean(true), V::Boolean(false)), Equality::Decided(false));
    assert_eq!(equality(V::Number(2.0), V::Number(2.0)), Equality::Numbers(2.0, 2.0));
}

#[test]
fn truthiness_and_negation() {
    assert!(!V::Nil.is_truthy());
    assert!(!V::Boolean(false).is_truthy());
    assert!(V::Number(0.0).is_truthy());
    assert!(V::String(String::new()).is_truthy());
    assert_eq!(V::Nil.not(), V::Boolean(true));
    assert_eq!(V::Number(0.0).not(), V::Boolean(false));
}

#[test]
fn arithmetic_needs_numbers() {
    assert_eq!(V::Number(4.5).into_double(1), Ok(4.5));
    assert_eq!(
        V::String("4".to_string()).into_double(7),
        Err(Error::TypeError { line: 7, message: "Expected number" })
    );
}
