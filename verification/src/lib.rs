//! Core of a spreadsheet: cell addresses, the cell-input grammar, exact
//! decimal values, formulas, and a dependency-driven recalculation engine.

pub mod address;
pub mod cell;
pub mod decimal;
pub mod formula;
pub mod laws;
pub mod parser;
pub mod sheet;
pub mod text;
pub mod value;
