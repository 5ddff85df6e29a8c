//! Tests of the cell-input grammar: values, literals, numbers, identifiers
//! and calls.

use calc::decimal::Decimal;
use calc::formula::Expression;
use calc::parser::identifier::parse_identifier;
use calc::parser::number::{binary, hexadecimal, octal};
use calc::parser::formula::{parse_call, parse_literal};
use calc::parser::{parse_value, skip_space};
use calc::text::to_chars;
use calc::value::Value;

fn complete<T>(
    input: &str,
    parse: impl Fn(&Vec<char>, usize) -> Option<(T, usize)>,
) -> Option<T> {
    let chars = to_chars(input);
    let start = skip_space(&chars, 0);
    match parse(&chars, start) {
        Some((value, end)) => {
            let rest = skip_space(&chars, end);
            if rest == chars.len() {
                Some(value)
            } else {
                None
            }
        },
        None => None,
    }
}

fn num(n: u32) -> Decimal {
    Decimal::from_u32(n)
}

fn neg(n: u32) -> Decimal {
    let positive = Decimal::from_u32(n);
    Decimal::from_parts(true, positive.digits, 0)
}

#[test]
fn test_parse_value() {
    assert_eq!(complete("  ", parse_value).unwrap(), Value::Empty);
    assert_eq!(complete(" 1 ", parse_value).unwrap(), Value::Number(num(1)));
    assert_eq!(complete(" \"foo\" ", parse_value).unwrap(), Value::String("foo".to_string()));
    assert!(complete("x", parse_value).is_none());
}

#[test]
fn test_parse_literal() {
    assert_eq!(complete(" 1 ", parse_literal).unwrap(), Value::Number(num(1)));
    assert_eq!(complete(" \"foo\" ", parse_literal).unwrap(), Value::String("foo".to_string()));
    assert!(complete("foo", parse_literal).is_none());
}

#[test]
fn test_parse_call() {
    assert!(matches!(
        complete(" foo ( ) ", parse_call).unwrap(),
        Expression::Call { name, arguments } if name == "foo" && arguments.len() == 0,
    ));
    assert!(matches!(
        complete(" foo ( 1 ) ", parse_call).unwrap(),
        Expression::Call { name, arguments } if name == "foo" && arguments.len() == 1,
    ));
    assert!(matches!(
        complete(" foo ( 1 , ) ", parse_call).unwrap(),
        Expression::Call { name, arguments } if name == "foo" && arguments.len() == 1,
    ));
    assert!(matches!(
        complete(" foo ( 1 , 1 ) ", parse_call).unwrap(),
        Expression::Call { name, arguments } if name == "foo" && arguments.len() == 2,
    ));
    assert!(matches!(
        complete(" foo ( 1 , 1 , ) ", parse_call).unwrap(),
        Expression::Call { name, arguments } if name == "foo" && arguments.len() == 2,
    ));
    assert!(complete("foo", parse_call).is_none());
    assert!(complete("foo(", parse_call).is_none());
    assert!(complete("foo(1", parse_call).is_none());
    assert!(complete("foo(,1)", parse_call).is_none());
}

#[test]
fn test_parse_identifier() {
    assert!(complete("_", parse_identifier).is_some());
    assert!(complete("foo", parse_identifier).is_some());
    assert!(complete("_foo", parse_identifier).is_some());
    assert!(complete("f00", parse_identifier).is_some());
    assert!(complete("_f00", parse_identifier).is_some());
    assert!(complete("_00f", parse_identifier).is_some());
    assert!(complete("", parse_identifier).is_none());
    assert!(complete("00f", parse_identifier).is_none());
}

#[test]
fn test_parse_binary() {
    assert_eq!(complete("0b0", binary).unwrap(), num(0));
    assert_eq!(complete("0b10", binary).unwrap(), num(2));
    assert_eq!(complete("-0b1", binary).unwrap(), neg(1));
    assert_eq!(complete("-0b10", binary).unwrap(), neg(2));
    assert_eq!(complete("+0b1", binary).unwrap(), num(1));
    assert_eq!(complete("+0b10", binary).unwrap(), num(2));
    assert_eq!(complete("0B0", binary).unwrap(), num(0));
    assert_eq!(complete("0B10", binary).unwrap(), num(2));
    assert_eq!(complete("-0B1", binary).unwrap(), neg(1));
    assert_eq!(complete("-0B10", binary).unwrap(), neg(2));
    assert_eq!(complete("+0B1", binary).unwrap(), num(1));
    assert_eq!(complete("+0B10", binary).unwrap(), num(2));
    assert!(complete("", binary).is_none());
    assert!(complete("010", binary).is_none());
    assert!(complete("asd", binary).is_none());
    assert!(complete("0x0", binary).is_none());
}

#[test]
fn test_parse_octal() {
    assert_eq!(complete("0o0", octal).unwrap(), num(0));
    assert_eq!(complete("0o10", octal).unwrap(), num(8));
    assert_eq!(complete("-0o7", octal).unwrap(), neg(7));
    assert_eq!(complete("-0o10", octal).unwrap(), neg(8));
    assert_eq!(complete("+0o7", octal).unwrap(), num(7));
    assert_eq!(complete("+0o10", octal).unwrap(), num(8));
    assert_eq!(complete("0O0", octal).unwrap(), num(0));
    assert_eq!(complete("0O10", octal).unwrap(), num(8));
    assert_eq!(complete("-0O7", octal).unwrap(), neg(7));
    assert_eq!(complete("-0O10", octal).unwrap(), neg(8));
    assert_eq!(complete("+0O7", octal).unwrap(), num(7));
    assert_eq!(complete("+0O10", octal).unwrap(), num(8));
    assert!(complete("", octal).is_none());
    assert!(complete("010", octal).is_none());
    assert!(complete("asd", octal).is_none());
    assert!(complete("0x0", octal).is_none());
}

#[test]
fn test_parse_hexadecimal() {
    assert_eq!(complete("0x0", hexadecimal).unwrap(), num(0));
    assert_eq!(complete("0x10", hexadecimal).unwrap(), num(16));
    assert_eq!(complete("-0xa", hexadecimal).unwrap(), neg(10));
    assert_eq!(complete("-0x10", hexadecimal).unwrap(), neg(16));
    assert_eq!(complete("+0xA", hexadecimal).unwrap(), num(10));
    assert_eq!(complete("+0x10", hexadecimal).unwrap(), num(16));
    assert_eq!(complete("0X0", hexadecimal).unwrap(), num(0));
    assert_eq!(complete("0X10", hexadecimal).unwrap(), num(16));
    assert_eq!(complete("-0XA", hexadecimal).unwrap(), neg(10));
    assert_eq!(complete("-0X10", hexadecimal).unwrap(), neg(16));
    assert_eq!(complete("+0Xa", hexadecimal).unwrap(), num(10));
    assert_eq!(complete("+0X10", hexadecimal).unwrap(), num(16));
    assert!(complete("", hexadecimal).is_none());
    assert!(complete("010", hexadecimal).is_none());
    assert!(complete("asd", hexadecimal).is_none());
    assert!(complete("0b0", hexadecimal).is_none());
}

#[test]
fn test_parse_decimal_forms() {
    assert_eq!(complete("1.5", parse_value).unwrap(), Value::Number(Decimal::from_parts(
        false,
        vec![1, 5],
        1,
    )));
    assert_eq!(complete("-.5", parse_value).unwrap(), Value::Number(Decimal::from_parts(
        true,
        vec![5],
        1,
    )));
    assert_eq!(complete("1e2", parse_value).unwrap(), Value::Number(num(100)));
    assert_eq!(complete("2.5e1", parse_value).unwrap(), Value::Number(num(25)));
    assert_eq!(complete("42.", parse_value).unwrap(), Value::Number(num(42)));
    assert!(complete("1e", parse_value).is_none());
    assert!(complete(".", parse_value).is_none());
}

#[test]
fn test_decimal_equality_by_value() {
    // equal numbers written at different scales compare equal
    assert_eq!(complete("1.0", parse_value).unwrap(), Value::Number(num(1)));
    assert_eq!(complete("0.00", parse_value).unwrap(), Value::Number(num(0)));
    assert_eq!(complete("-0", parse_value).unwrap(), Value::Number(num(0)));
    assert_ne!(complete("1.01", parse_value).unwrap(), Value::Number(num(1)));
}

#[test]
fn test_decimal_text_round_trip() {
    for text in ["1", "1.50", "-0.5", "100", "0", "12.345"] {
        let value = complete(text, parse_value).unwrap();
        match &value {
            Value::Number(d) => assert_eq!(d.to_text(), text),
            _ => panic!(),
        }
    }
}
