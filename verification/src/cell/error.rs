//! Errors of putting input into a cell.

use vstd::prelude::*;

verus! {

/// Why a cell rejected its input.
#[derive(Clone, Copy, Debug, PartialEq, Eq, Structural)]
pub struct CellInputError {
    pub kind: CellInputErrorKind,
}

/// The kinds of cell input errors.
#[derive(Clone, Copy, Debug, PartialEq, Eq, Structural)]
#[non_exhaustive]
pub enum CellInputErrorKind {
    /// the input could not be parsed as a formula
    InvalidFormula,
}

impl CellInputError {
    /// The kind of the error.
    pub fn kind(&self) -> (r: &CellInputErrorKind)
        ensures
            r == &self.kind,
    {
        &self.kind
    }

    /// The display text of the error.
    pub fn to_text(&self) -> (r: String)
        ensures
            r@ == "cannot parse formula"@,
    {
        "cannot parse formula".to_owned()
    }
}

} // verus!
