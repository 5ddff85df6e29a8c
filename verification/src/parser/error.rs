//! Errors of the textual parsers.

use vstd::prelude::*;

verus! {

/// An error while parsing a column address such as "C" or "AA".
#[derive(Clone, Copy, Debug, PartialEq, Eq, Structural)]
#[non_exhaustive]
pub enum ParseColumnAddressError {
    /// the parsed string was empty
    Empty,
    /// the parsed string contained invalid characters
    InvalidCharacter,
    /// the parsed string represents a too large address
    Overflow,
}

/// An error while parsing a row address such as "1" or "11".
#[derive(Clone, Copy, Debug, PartialEq, Eq, Structural)]
#[non_exhaustive]
pub enum ParseRowAddressError {
    /// the parsed string was empty
    Empty,
    /// the parsed string contained invalid characters
    InvalidCharacter,
    /// the parsed string represents a too large address
    Overflow,
    /// the parsed string represents row zero, which does not exist
    Zero,
}

/// An error while parsing a cell address such as "A1".
#[derive(Clone, Copy, Debug, PartialEq, Eq, Structural)]
#[non_exhaustive]
pub enum ParseCellAddressError {
    /// the parsed string was not a valid cell address
    Invalid,
}

/// An error while parsing a whole cell input.
#[derive(Clone, Copy, Debug, PartialEq, Eq, Structural)]
#[non_exhaustive]
pub enum ParseFormulaError {
    /// the parsed string was not a valid formula
    Invalid,
}

} // verus!
