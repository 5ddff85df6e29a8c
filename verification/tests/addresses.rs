//! Tests of address formatting and parsing.

use calc::address::{CellAddress, ColAddress, RowAddress};
use calc::parser::range::{
    parse_cell_address_complete, parse_col_address_complete, parse_row_address_complete,
};

fn col_address(col: u32) -> ColAddress {
    ColAddress::try_new(col).unwrap()
}

fn cell_address(row: u32, col: u32) -> CellAddress {
    CellAddress::new(RowAddress::try_new(row).unwrap(), ColAddress::try_new(col).unwrap())
}

#[test]
fn test_display_col() {
    assert_eq!(col_address(1).to_text(), "A");
    assert_eq!(col_address(26).to_text(), "Z");
    assert_eq!(col_address(1 * 26 + 1).to_text(), "AA");
    assert_eq!(col_address(1 * 26 + 26).to_text(), "AZ");
    assert_eq!(col_address(26 * 26 + 26).to_text(), "ZZ");
    assert_eq!(col_address(1 * 26 * 26 + 1 * 26 + 1).to_text(), "AAA");
}

#[test]
fn test_parse_cell_address() {
    assert_eq!(parse_cell_address_complete("A1").unwrap(), cell_address(1, 1));
    assert_eq!(parse_cell_address_complete("aa23").unwrap(), cell_address(23, 27));
    assert!(parse_cell_address_complete("0").is_err());
    assert!(parse_cell_address_complete("a").is_err());
}

#[test]
fn test_parse_col_address() {
    assert_eq!(parse_col_address_complete("A").unwrap(), col_address(1));
    assert_eq!(parse_col_address_complete("Z").unwrap(), col_address(26));
    assert_eq!(parse_col_address_complete("aa").unwrap(), col_address(1 * 26 + 1));
    assert_eq!(parse_col_address_complete("zz").unwrap(), col_address(26 * 26 + 26));
    assert_eq!(parse_col_address_complete("aaa").unwrap(), col_address(1 * 26 * 26 + 1 * 26 + 1));
    assert!(parse_col_address_complete("0").is_err());
    assert!(parse_col_address_complete("a1").is_err());
}

#[test]
fn test_parse_row_address() {
    assert_eq!(parse_row_address_complete("1").unwrap(), RowAddress::try_new(1).unwrap());
    assert_eq!(parse_row_address_complete("11").unwrap(), RowAddress::try_new(11).unwrap());
    assert!(parse_row_address_complete("a").is_err());
    assert!(parse_row_address_complete("a1").is_err());
}

#[test]
fn test_col_text_round_trip() {
    for n in [1u32, 2, 25, 26, 27, 51, 52, 701, 702, 703, 18278, 1_000_000] {
        let text = col_address(n).to_text();
        assert_eq!(parse_col_address_complete(&text).unwrap(), col_address(n));
    }
}

#[test]
fn test_cell_text_round_trip() {
    for (row, col) in [(1u32, 1u32), (23, 27), (99, 702), (1_000_000, 703)] {
        let a = cell_address(row, col);
        let text = a.to_text();
        assert_eq!(parse_cell_address_complete(&text).unwrap(), a);
    }
}
