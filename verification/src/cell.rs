//! A cell: the stored input text, its parsed formula, and the value it last
//! evaluated to. Only the sheet mutates cells.

mod error;

use vstd::prelude::*;

use crate::formula::{Formula, FormulaV};
use crate::value::{Value, ValueV};

pub use error::{CellInputError, CellInputErrorKind};

verus! {

/// One cell of the sheet.
#[derive(Debug)]
pub struct Cell {
    pub(crate) input: String,
    pub(crate) formula: Formula,
    pub(crate) value: Value,
}

/// The mathematical content of a [`Cell`].
pub struct CellV {
    pub input: Seq<char>,
    pub formula: FormulaV,
    pub value: ValueV,
}

impl View for Cell {
    type V = CellV;

    closed spec fn view(&self) -> CellV {
        CellV { input: self.input@, formula: self.formula@, value: self.value@ }
    }
}

impl CellV {
    /// The formula and the value hold well-formed decimals.
    pub open spec fn wf(self) -> bool {
        self.formula.wf() && self.value.wf()
    }
}

impl Cell {
    /// A cell built from its parts.
    pub(crate) fn from_parts(input: String, formula: Formula, value: Value) -> (r: Self)
        ensures
            r@.input == input@,
            r@.formula == formula@,
            r@.value == value@,
    {
        Cell { input, formula, value }
    }

    /// Overwrites the cell's value; only the sheet does this.
    pub(crate) fn set_value(&mut self, value: Value)
        ensures
            final(self)@ == (CellV {
                input: old(self)@.input,
                formula: old(self)@.formula,
                value: value@,
            }),
    {
        self.value = value;
    }

    /// Overwrites the cell's input and formula; only the sheet does this.
    pub(crate) fn set_input_formula(&mut self, input: String, formula: Formula)
        ensures
            final(self)@ == (CellV {
                input: input@,
                formula: formula@,
                value: old(self)@.value,
            }),
    {
        self.input = input;
        self.formula = formula;
    }

    /// A fresh cell: no input, the empty literal, the empty value.
    pub fn new() -> (r: Self)
        ensures
            r@.input == Seq::<char>::empty(),
            r@.formula == FormulaV::Literal(ValueV::Empty),
            r@.value == ValueV::Empty,
    {
        Cell { input: String::new(), formula: Formula::Literal(Value::Empty), value: Value::Empty }
    }

    /// The text that was put into the cell.
    pub fn input(&self) -> (r: &String)
        ensures
            r@ == self@.input,
    {
        &self.input
    }

    /// The parsed formula of the cell.
    pub fn formula(&self) -> (r: &Formula)
        ensures
            r@ == self@.formula,
    {
        &self.formula
    }

    /// The value the cell last evaluated to.
    pub fn value(&self) -> (r: &Value)
        ensures
            r@ == self@.value,
    {
        &self.value
    }
}

impl Default for Cell {
    /// Same as [`Cell::new`].
    fn default() -> (r: Self)
        ensures
            r@.input == Seq::<char>::empty(),
            r@.formula == FormulaV::Literal(ValueV::Empty),
            r@.value == ValueV::Empty,
    {
        Cell::new()
    }
}

} // verus!
