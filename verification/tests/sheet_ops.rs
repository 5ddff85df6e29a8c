//! Tests of the sheet: setting cells, references, recalculation, functions
//! and cycles.

use std::str::FromStr;

use bigdecimal::BigDecimal;
use calc::address::CellAddress;
use calc::formula::Evaluate;
use calc::decimal::Decimal;
use calc::parser::range::parse_cell_address_complete;
use calc::sheet::Sheet;
use calc::value::{Error, Value};

fn addr(text: &str) -> CellAddress {
    parse_cell_address_complete(text).unwrap()
}

fn get(sheet: &Sheet, text: &str) -> Value {
    Value::cloned_or_empty(sheet.value(&addr(text)))
}

fn num(n: u32) -> Value {
    Value::Number(Decimal::from_u32(n))
}

fn set_and_get_cell(input: &str) -> Value {
    let mut sheet = Sheet::new();
    sheet.set_cell(addr("A1"), input.to_string()).unwrap();
    get(&sheet, "A1")
}

/// Numeric summation over the values, for registration under `sum`.
fn sum(arguments: &[Value]) -> Value {
    fn inner(values: &[Value]) -> Result<Value, Error> {
        let mut total = BigDecimal::default();
        for value in values {
            let d = value.as_number()?;
            total += BigDecimal::from_str(&d.to_text()).unwrap();
        }
        Ok(Value::Number(decimal_from_text(&total.to_string())))
    }
    inner(arguments).unwrap_or_else(Value::Error)
}

/// Builds a decimal by parsing its text through the public grammar.
fn decimal_from_text(text: &str) -> Decimal {
    let chars = calc::text::to_chars(text);
    match calc::parser::number::parse_number(&chars, 0) {
        Some((d, end)) if end == chars.len() => d,
        _ => panic!(),
    }
}

#[test]
fn sheet_test_empty() {
    assert_eq!(set_and_get_cell(""), Value::Empty);
}

#[test]
fn sheet_test_literal_number() {
    assert_eq!(set_and_get_cell("1"), num(1));
}

#[test]
fn sheet_test_literal_string() {
    assert_eq!(set_and_get_cell("\"foo\""), Value::String("foo".into()));
}

#[test]
fn sheet_test_number_formula() {
    assert_eq!(set_and_get_cell("=1"), num(1));
}

#[test]
fn sheet_test_string_formula() {
    assert_eq!(set_and_get_cell("=\"foo\""), Value::String("foo".into()));
}

#[test]
fn test_reference() {
    let mut sheet = Sheet::new();
    sheet.set_cell(addr("A1"), "1".to_string()).unwrap();
    sheet.set_cell(addr("A2"), "=A1".to_string()).unwrap();
    assert_eq!(get(&sheet, "A2"), num(1));
}

#[test]
fn test_reference_reevaluate() {
    let mut sheet = Sheet::new();
    sheet.set_cell(addr("A2"), "=A1".to_string()).unwrap();
    sheet.set_cell(addr("A1"), "1".to_string()).unwrap();
    assert_eq!(get(&sheet, "A2"), num(1));
}

#[test]
fn test_function() {
    let mut sheet = Sheet::new();
    sheet.set_function("fn", |arguments: &[Value]| match arguments {
        [arg] => arg.clone(),
        _ => Value::Error(Error::Type),
    });
    sheet.set_cell(addr("A1"), "=fn(1)".to_string()).unwrap();
    assert_eq!(get(&sheet, "A1"), num(1));
}

#[test]
fn test_sum_function() {
    let mut sheet = Sheet::new();
    sheet.set_function("sum", sum);
    sheet.set_cell(addr("A1"), "=sum(1,2,3)".to_string()).unwrap();
    assert_eq!(get(&sheet, "A1"), num(6));
}

#[test]
fn test_set_empty_returns_nothing() {
    let mut sheet = Sheet::new();
    let updates = sheet.set_cell(addr("A1"), "".to_string()).unwrap();
    assert!(updates.is_empty());
    assert_eq!(get(&sheet, "A1"), Value::Empty);
    assert!(sheet.cell(&addr("A1")).is_none());
}

#[test]
fn test_set_number_returns_update() {
    let mut sheet = Sheet::new();
    let updates = sheet.set_cell(addr("A1"), "1".to_string()).unwrap();
    assert_eq!(updates, vec![(addr("A1"), num(1))]);
    assert_eq!(get(&sheet, "A1"), num(1));
}

#[test]
fn test_set_string_returns_update() {
    let mut sheet = Sheet::new();
    let updates = sheet.set_cell(addr("A1"), "\"foo\"".to_string()).unwrap();
    assert_eq!(updates, vec![(addr("A1"), Value::String("foo".into()))]);
}

#[test]
fn test_set_formula_returns_update() {
    let mut sheet = Sheet::new();
    let updates = sheet.set_cell(addr("A1"), "=1".to_string()).unwrap();
    assert_eq!(updates, vec![(addr("A1"), num(1))]);
}

#[test]
fn test_dependent_updates_in_order() {
    let mut sheet = Sheet::new();
    sheet.set_cell(addr("A1"), "1".to_string()).unwrap();
    let updates = sheet.set_cell(addr("A2"), "=A1".to_string()).unwrap();
    assert_eq!(updates, vec![(addr("A2"), num(1))]);
    let updates = sheet.set_cell(addr("A1"), "2".to_string()).unwrap();
    assert_eq!(updates, vec![(addr("A1"), num(2)), (addr("A2"), num(2))]);
}

#[test]
fn test_sum_scenario() {
    let mut sheet = Sheet::new();
    sheet.set_function("sum", sum);
    let updates = sheet.set_cell(addr("A1"), "=sum(1,2,3)".to_string()).unwrap();
    assert_eq!(updates, vec![(addr("A1"), num(6))]);
}

#[test]
fn test_cycle() {
    let mut sheet = Sheet::new();
    sheet.set_cell(addr("A1"), "=A2".to_string()).unwrap();
    let updates = sheet.set_cell(addr("A2"), "=A1".to_string()).unwrap();
    assert_eq!(get(&sheet, "A1"), Value::Error(Error::Cycle));
    assert_eq!(get(&sheet, "A2"), Value::Error(Error::Cycle));
    assert_eq!(updates.len(), 2);
    for (_, value) in &updates {
        assert_eq!(*value, Value::Error(Error::Cycle));
    }
}

#[test]
fn test_undefined_function() {
    let mut sheet = Sheet::new();
    let updates = sheet.set_cell(addr("A1"), "=nope()".to_string()).unwrap();
    assert_eq!(updates, vec![(addr("A1"), Value::Error(Error::Undefined))]);
    assert_eq!(get(&sheet, "A1"), Value::Error(Error::Undefined));
}

#[test]
fn test_clear_cell_reevaluates_dependents() {
    let mut sheet = Sheet::new();
    sheet.set_cell(addr("A1"), "1".to_string()).unwrap();
    sheet.set_cell(addr("A2"), "=A1".to_string()).unwrap();
    let updates = sheet.set_cell(addr("A1"), "".to_string()).unwrap();
    assert_eq!(updates, vec![(addr("A2"), Value::Empty)]);
    assert!(sheet.cell(&addr("A1")).is_none());
    assert_eq!(get(&sheet, "A2"), Value::Empty);
}

#[test]
fn test_parse_error_changes_nothing() {
    let mut sheet = Sheet::new();
    sheet.set_cell(addr("A1"), "1".to_string()).unwrap();
    let result = sheet.set_cell(addr("A1"), "=)".to_string());
    assert!(result.is_err());
    assert_eq!(get(&sheet, "A1"), num(1));
    assert_eq!(sheet.cell(&addr("A1")).unwrap().input().as_str(), "1");
}

#[test]
fn test_type_error_propagates() {
    let mut sheet = Sheet::new();
    sheet.set_function("sum", sum);
    sheet.set_cell(addr("A1"), "\"foo\"".to_string()).unwrap();
    sheet.set_cell(addr("A2"), "=sum(A1)".to_string()).unwrap();
    assert_eq!(get(&sheet, "A2"), Value::Error(Error::Type));
}

#[test]
fn test_hexadecimal_cell_input() {
    // would fail if the radix conversion handed its digits back unchanged
    assert_eq!(set_and_get_cell("0x10"), num(16));
    assert_eq!(set_and_get_cell("0b110"), num(6));
    assert_eq!(set_and_get_cell("0o17"), num(15));
}

#[test]
fn test_stored_input_and_formula() {
    let mut sheet = Sheet::new();
    sheet.set_cell(addr("B2"), " =  A1 ".to_string()).unwrap();
    let cell = sheet.cell(&addr("B2")).unwrap();
    assert_eq!(cell.input().as_str(), " =  A1 ");
    assert_eq!(*cell.value(), Value::Empty);
}

#[test]
fn test_evaluate_formula_against_sheet() {
    let mut sheet = Sheet::new();
    sheet.set_cell(addr("A1"), "3".to_string()).unwrap();
    let chars = calc::text::to_chars("=A1");
    let (formula, end) = calc::parser::parse_cell(&chars, 0).unwrap();
    assert_eq!(end, chars.len());
    assert_eq!(sheet.evaluate(&formula), num(3));
    assert_eq!(formula.visit_dependecies(), vec![addr("A1")]);
}
