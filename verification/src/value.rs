//! Cell values: the result of evaluating what was put into a cell.
//!
//! A value is empty, an exact decimal number, a string, or an error. Errors
//! are values too: evaluation never aborts, it stores the error in the cell.

use vstd::prelude::*;

use crate::decimal::{dec_eq_raw, dec_text_of, Decimal, DecV};
use crate::text::push_char;

verus! {

/// The reason a value could not be produced.
#[derive(Clone, Copy, Debug, PartialEq, Eq, Structural)]
pub enum Error {
    /// a value could not be interpreted as a certain type as necessary
    Type,
    /// a nonexistent identifier was used
    Undefined,
    /// the cell depends, through references, on its own value
    Cycle,
}

/// The value of a cell.
#[derive(Debug)]
pub enum Value {
    /// empty cells have this value
    Empty,
    /// the value of the cell is a number
    Number(Decimal),
    /// the value of the cell is a string
    String(String),
    /// any kind of error
    Error(Error),
}

/// The mathematical content of a [`Value`].
pub enum ValueV {
    Empty,
    Number(DecV),
    String(Seq<char>),
    Error(Error),
}

impl View for Value {
    type V = ValueV;

    open spec fn view(&self) -> ValueV {
        match self {
            Value::Empty => ValueV::Empty,
            Value::Number(d) => ValueV::Number(d@),
            Value::String(s) => ValueV::String(s@),
            Value::Error(e) => ValueV::Error(*e),
        }
    }
}

impl ValueV {
    /// Number values must hold a well-formed decimal.
    pub open spec fn wf(self) -> bool {
        match self {
            ValueV::Number(d) => d.wf(),
            _ => true,
        }
    }
}

/// What `==` computes on values: variants must match; numbers compare by
/// denoted number, strings and errors by content.
pub open spec fn val_eq_raw(a: ValueV, b: ValueV) -> bool {
    match (a, b) {
        (ValueV::Empty, ValueV::Empty) => true,
        (ValueV::Number(x), ValueV::Number(y)) => dec_eq_raw(x, y),
        (ValueV::String(x), ValueV::String(y)) => x =~= y,
        (ValueV::Error(x), ValueV::Error(y)) => x == y,
        _ => false,
    }
}

impl Value {
    /// The number a value stands for: its decimal for numbers, the error
    /// itself for errors, and a type error otherwise.
    pub fn as_number(&self) -> (r: Result<&Decimal, Error>)
        ensures
            match self@ {
                ValueV::Number(d) => r is Ok && r->Ok_0@ == d,
                ValueV::Error(e) => r == Result::<&Decimal, Error>::Err(e),
                _ => r == Result::<&Decimal, Error>::Err(Error::Type),
            },
    {
        match self {
            Value::Number(value) => Ok(value),
            Value::Error(error) => Err(*error),
            _ => Err(Error::Type),
        }
    }

    /// The string a value stands for: its text for strings, the error
    /// itself for errors, and a type error otherwise.
    pub fn as_string(&self) -> (r: Result<&str, Error>)
        ensures
            match self@ {
                ValueV::String(s) => r is Ok && r->Ok_0@ == s,
                ValueV::Error(e) => r == Result::<&str, Error>::Err(e),
                _ => r == Result::<&str, Error>::Err(Error::Type),
            },
    {
        match self {
            Value::String(value) => Ok(value.as_str()),
            Value::Error(error) => Err(*error),
            _ => Err(Error::Type),
        }
    }

    /// A copy of the referenced value, or the empty value.
    pub fn cloned_or_empty(v: Option<&Value>) -> (r: Value)
        ensures
            match v {
                Some(x) => r@ == x@,
                None => r@ == ValueV::Empty,
            },
    {
        match v {
            Some(x) => x.clone(),
            None => Value::Empty,
        }
    }

    /// The display text of the value.
    pub fn to_text(&self) -> (r: String)
        requires
            self@.wf(),
        ensures
            r@ == value_text(self@),
    {
        match self {
            Value::Empty => String::new(),
            Value::Number(d) => d.to_text(),
            Value::String(s) => {
                let mut out = String::new();
                push_char(&mut out, '"');
                out.append(s.as_str());
                push_char(&mut out, '"');
                proof {
                    assert(out@ =~= seq!['"'] + s@ + seq!['"']);
                }
                out
            },
            Value::Error(e) => e.to_text(),
        }
    }
}

/// The display text of a value: nothing for empty, the canonical decimal
/// text for numbers, the string in double quotes, or the error tag.
pub open spec fn value_text(v: ValueV) -> Seq<char> {
    match v {
        ValueV::Empty => Seq::empty(),
        ValueV::Number(d) => dec_text_of(d),
        ValueV::String(s) => seq!['"'] + s + seq!['"'],
        ValueV::Error(e) => error_text(e),
    }
}

/// The display tag of an error.
pub open spec fn error_text(e: Error) -> Seq<char> {
    match e {
        Error::Type => "#TYPE"@,
        Error::Undefined => "#UNDEFINED"@,
        Error::Cycle => "#CYCLE"@,
    }
}

impl Error {
    /// The display tag of the error.
    pub fn to_text(&self) -> (r: String)
        ensures
            r@ == error_text(*self),
    {
        match self {
            Error::Type => "#TYPE".to_owned(),
            Error::Undefined => "#UNDEFINED".to_owned(),
            Error::Cycle => "#CYCLE".to_owned(),
        }
    }
}

impl Clone for Value {
    /// A clone holds the same content.
    fn clone(&self) -> (r: Self)
        ensures
            r@ == self@,
    {
        match self {
            Value::Empty => Value::Empty,
            Value::Number(d) => Value::Number(d.clone()),
            Value::String(s) => Value::String(s.clone()),
            Value::Error(e) => Value::Error(*e),
        }
    }
}

impl Default for Value {
    /// A cell starts out empty.
    fn default() -> (r: Self)
        ensures
            r@ == ValueV::Empty,
    {
        Value::Empty
    }
}

impl PartialEq for Value {
    /// Structural equality, with numbers compared by denoted number.
    fn eq(&self, other: &Self) -> (r: bool)
        ensures
            r == val_eq_raw(self@, other@),
    {
        match (self, other) {
            (Value::Empty, Value::Empty) => true,
            (Value::Number(x), Value::Number(y)) => *x == *y,
            (Value::String(x), Value::String(y)) => *x == *y,
            (Value::Error(x), Value::Error(y)) => *x == *y,
            _ => false,
        }
    }
}

impl vstd::std_specs::cmp::PartialEqSpecImpl for Value {
    open spec fn obeys_eq_spec() -> bool {
        true
    }

    open spec fn eq_spec(&self, other: &Value) -> bool {
        val_eq_raw(self@, other@)
    }
}

} // verus!
