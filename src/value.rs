use vstd::prelude::*;

use crate::error::Error;

verus! {

/// A runtime value. The number type is left open: the rules here never look
/// inside a number, they only route numbers to the arithmetic that the
/// caller performs.
#[derive(Debug, Clone, PartialEq)]
pub enum Value<N> {
    String(String),
    Number(N),
    Boolean(bool),
    Nil,
}

/// What `+` does with its two operands: add two numbers, or the text of two
/// strings joined.
#[derive(Debug, Clone, PartialEq)]
pub enum Sum<N> {
    Numbers(N, N),
    Text(String),
}

/// What `==` decides about two operands: the answer, or two numbers still to
/// be compared.
#[derive(Debug, Clone, PartialEq)]
pub enum Equality<N> {
    Decided(bool),
    Numbers(N, N),
}

impl<N> Value<N> {
    /// Only nil and false are falsy.
    pub open spec fn truthy(&self) -> bool {
        match self {
            Value::Nil => false,
            Value::Boolean(b) => *b,
            _ => true,
        }
    }

    pub fn is_truthy(&self) -> (r: bool)
        ensures
            r == self.truthy(),
    {
        match self {
            Value::String(_) | Value::Number(_) => true,
            Value::Boolean(b) => *b,
            Value::Nil => false,
        }
    }

    /// Logical negation through truthiness; accepts every value.
    pub fn not(self) -> (r: Value<N>)
        ensures
            r == Value::<N>::Boolean(!self.truthy()),
    {
        let b = self.is_truthy();
        Value::Boolean(!b)
    }

    /// The number an arithmetic or comparison operator on `line` needs.
    pub fn into_double(self, line: usize) -> (r: Result<N, Error>)
        ensures
            match self {
                Value::Number(n) => r == Ok::<N, Error>(n),
                _ => r == Err::<N, Error>(Error::TypeError { line, message: "Expected number" }),
            },
    {
        match self {
            Value::Number(n) => Ok(n),
            _ => Err(Error::TypeError { line, message: "Expected number" }),
        }
    }
}

/// The rule of `+` on `line`: two numbers are added, two strings joined,
/// and any other pair is a type error.
pub fn plus<N>(left: Value<N>, right: Value<N>, line: usize) -> (r: Result<Sum<N>, Error>)
    ensures
        match (left, right) {
            (Value::Number(a), Value::Number(b)) => r == Ok::<Sum<N>, Error>(Sum::Numbers(a, b)),
            (Value::String(a), Value::String(b)) => r matches Ok(Sum::Text(t)) && t@ == a@ + b@,
            _ => r == Err::<Sum<N>, Error>(
                Error::TypeError { line, message: "Invalid operand types for '+'" },
            ),
        },
{
    match (left, right) {
        (Value::Number(a), Value::Number(b)) => Ok(Sum::Numbers(a, b)),
        (Value::String(a), Value::String(b)) => Ok(Sum::Text(a.concat(b.as_str()))),
        _ => Err(Error::TypeError { line, message: "Invalid operand types for '+'" }),
    }
}

/// The rule of `==`: values of different kinds are unequal, never an error;
/// strings, booleans and nil compare by content; numbers are left to the
/// caller.
pub fn equality<N>(left: Value<N>, right: Value<N>) -> (r: Equality<N>)
    ensures
        match (left, right) {
            (Value::Number(a), Value::Number(b)) => r == Equality::Numbers(a, b),
            (Value::String(a), Value::String(b)) => r == Equality::<N>::Decided(a@ == b@),
            (Value::Boolean(a), Value::Boolean(b)) => r == Equality::<N>::Decided(a == b),
            (Value::Nil, Value::Nil) => r == Equality::<N>::Decided(true),
            _ => r == Equality::<N>::Decided(false),
        },
{
    match (left, right) {
        (Value::Number(a), Value::Number(b)) => Equality::Numbers(a, b),
        (Value::String(a), Value::String(b)) => Equality::Decided(a.eq(&b)),
        (Value::Boolean(a), Value::Boolean(b)) => Equality::Decided(a == b),
        (Value::Nil, Value::Nil) => Equality::Decided(true),
        _ => Equality::Decided(false),
    }
}

} // verus!
