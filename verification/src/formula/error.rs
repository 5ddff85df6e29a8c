//! Errors of parsing a formula.

use vstd::prelude::*;

verus! {

/// Why a formula could not be made from input text.
#[derive(Clone, Copy, Debug, PartialEq, Eq, Structural)]
pub struct FormulaError {
    pub kind: FormulaErrorKind,
}

/// The kinds of formula errors.
#[derive(Clone, Copy, Debug, PartialEq, Eq, Structural)]
#[non_exhaustive]
pub enum FormulaErrorKind {
    /// the input could not be parsed as a formula
    InvalidFormula,
}

impl FormulaError {
    /// The kind of the error.
    pub fn kind(&self) -> (r: &FormulaErrorKind)
        ensures
            r == &self.kind,
    {
        &self.kind
    }

    /// The display text of the error.
    pub fn to_text(&self) -> (r: String)
        ensures
            r@ == "cannot parse formula"@,
    {
        "cannot parse formula".to_owned()
    }
}

} // verus!
