//! Tests of the value algebra: coercions and display text.

use calc::decimal::Decimal;
use calc::value::{Error, Value};

#[test]
fn test_value() {
    assert_eq!(Value::Empty.to_text(), "");
    assert_eq!(Value::Number(Decimal::from_u32(1)).to_text(), "1");
    assert_eq!(Value::String("foo".into()).to_text(), "\"foo\"");
    assert_eq!(Value::Error(Error::Type).to_text(), "#TYPE");
}

#[test]
fn test_error_text() {
    assert_eq!(Value::Error(Error::Undefined).to_text(), "#UNDEFINED");
    assert_eq!(Value::Error(Error::Cycle).to_text(), "#CYCLE");
}

#[test]
fn test_as_number() {
    let one = Decimal::from_u32(1);
    assert_eq!(Value::Number(one.clone()).as_number().unwrap(), &one);
    assert_eq!(Value::String("foo".into()).as_number().unwrap_err(), Error::Type);
    assert_eq!(Value::Empty.as_number().unwrap_err(), Error::Type);
    assert_eq!(Value::Error(Error::Cycle).as_number().unwrap_err(), Error::Cycle);
}

#[test]
fn test_as_string() {
    assert_eq!(Value::String("foo".into()).as_string().unwrap(), "foo");
    assert_eq!(Value::Number(Decimal::from_u32(1)).as_string().unwrap_err(), Error::Type);
    assert_eq!(Value::Error(Error::Undefined).as_string().unwrap_err(), Error::Undefined);
}
