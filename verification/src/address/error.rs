//! Errors of reading an address from text.

use vstd::prelude::*;

verus! {

/// An error while reading a column address such as "C" or "AA".
#[derive(Clone, Copy, Debug, PartialEq, Eq, Structural)]
#[non_exhaustive]
pub enum ParseColumnError {
    /// the parsed string was empty
    Empty,
    /// the parsed string contained invalid characters
    InvalidCharacter,
    /// the parsed string represents a too large address
    Overflow,
}

} // verus!
