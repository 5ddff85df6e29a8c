//! Row, column and cell addresses, and their textual forms.
//!
//! A row address is a positive integer written in decimal. A column address is
//! a positive integer written in "spreadsheet base-26": the letters `A`..`Z`
//! stand for 1..26 and no letter stands for zero, so `Z` is 26, `AA` is 27 and
//! `ZZ` is 702. Cell addresses concatenate the column letters and the row
//! digits, as in `AA23`.

pub mod error;

use vstd::prelude::*;

use crate::text::{rev_seq, rev_to_string};

pub use error::ParseColumnError;
use vstd::string::StringExecFns;

verus! {

/// A row address, which is a positive integer.
#[derive(Clone, Copy, Debug, PartialEq, Eq, Structural, Hash)]
pub struct RowAddress {
    pub n: u32,
}

/// A column address, which is a positive integer shown as alphabetic base-26.
#[derive(Clone, Copy, Debug, PartialEq, Eq, Structural, Hash)]
pub struct ColAddress {
    pub n: u32,
}

/// Address of a single cell: a column and a row.
#[derive(Clone, Copy, Debug, PartialEq, Eq, Structural, Hash)]
pub struct CellAddress {
    pub row: RowAddress,
    pub col: ColAddress,
}

impl RowAddress {
    /// A row address holds an integer of at least 1.
    pub open spec fn valid(self) -> bool {
        self.n >= 1
    }

    pub fn new(address: u32) -> (r: Self)
        requires
            address >= 1,
        ensures
            r.n == address,
    {
        Self { n: address }
    }

    /// The row address for `address`, or `None` when `address` is zero.
    pub fn try_new(address: u32) -> (r: Option<Self>)
        ensures
            r is Some <==> address >= 1,
            r is Some ==> r->0.n == address,
    {
        if address >= 1 {
            Some(Self { n: address })
        } else {
            None
        }
    }

    /// The decimal digits of the row number.
    pub fn to_text(&self) -> (r: String)
        requires
            self.valid(),
        ensures
            r@ == dec_text(self.n as int),
    {
        let mut digits: Vec<char> = Vec::new();
        let mut num = self.n;
        while num > 0
            invariant
            dec_text(self.n as int) == dec_text(num as int) + rev_seq(digits@),
            decreases num,
        {
            let d = num % 10;
            num = num / 10;
            let ghost before = digits@;
            digits.push(exec_dec_digit_char(d));
            proof {
                crate::text::lemma_rev_push(before, dec_digit_char(d as int));
                assert(dec_text(self.n as int) == dec_text(num as int) + rev_seq(digits@));
            }
        }
        rev_to_string(&digits)
    }
}

impl ColAddress {
    /// A column address holds an integer of at least 1.
    pub open spec fn valid(self) -> bool {
        self.n >= 1
    }

    pub fn new(address: u32) -> (r: Self)
        requires
            address >= 1,
        ensures
            r.n == address,
    {
        Self { n: address }
    }

    /// The column address for `address`, or `None` when `address` is zero.
    pub fn try_new(address: u32) -> (r: Option<Self>)
        ensures
            r is Some <==> address >= 1,
            r is Some ==> r->0.n == address,
    {
        if address >= 1 {
            Some(Self { n: address })
        } else {
            None
        }
    }

    /// The uppercase base-26 letters of the column number.
    pub fn to_text(&self) -> (r: String)
        requires
            self.valid(),
        ensures
            r@ == col_text(self.n as int),
    {
        let mut digits: Vec<char> = Vec::new();
        let mut num = self.n;
        while num > 0
            invariant
            col_text(self.n as int) == col_text(num as int) + rev_seq(digits@),
            decreases num,
        {
            let m = num - 1;
            let d = m % 26;
            num = m / 26;
            let ghost before = digits@;
            digits.push(exec_col_letter(d));
            proof {
                crate::text::lemma_rev_push(before, col_letter(d as int));
                assert(col_text(self.n as int) == col_text(num as int) + rev_seq(digits@));
            }
        }
        rev_to_string(&digits)
    }
}

impl CellAddress {
    /// A cell address is valid when its row and column both are.
    pub open spec fn valid(self) -> bool {
        self.row.valid() && self.col.valid()
    }

    pub fn new(row: RowAddress, col: ColAddress) -> (r: Self)
        ensures
            r.row == row,
            r.col == col,
    {
        Self { row, col }
    }

    pub fn col(&self) -> (r: ColAddress)
        ensures
            r == self.col,
    {
        self.col
    }

    pub fn row(&self) -> (r: RowAddress)
        ensures
            r == self.row,
    {
        self.row
    }

    /// The column letters followed by the row digits, as in `AA23`.
    pub fn to_text(&self) -> (r: String)
        requires
            self.valid(),
        ensures
            r@ == cell_text(*self),
    {
        let mut s = self.col.to_text();
        let row = self.row.to_text();
        s.append(row.as_str());
        s
    }

    /// `a` comes before `b` in column-major order: by column, then by row.
    pub open spec fn spec_le(a: CellAddress, b: CellAddress) -> bool {
        a.col.n < b.col.n || (a.col.n == b.col.n && a.row.n <= b.row.n)
    }

    /// Column-major comparison, the deterministic order of recalculation.
    pub fn le(a: &CellAddress, b: &CellAddress) -> (r: bool)
        ensures
            r == Self::spec_le(*a, *b),
    {
        a.col.n < b.col.n || (a.col.n == b.col.n && a.row.n <= b.row.n)
    }
}

/// The textual form of a cell address.
pub open spec fn cell_text(a: CellAddress) -> Seq<char> {
    col_text(a.col.n as int) + dec_text(a.row.n as int)
}

/// The decimal digit character for `d` in 0..10.
pub open spec fn dec_digit_char(d: int) -> char {
    (('0' as u8) + d) as char
}

/// The column letter for `d` in 0..26: `A` for 0 up to `Z` for 25.
pub open spec fn col_letter(d: int) -> char {
    (('A' as u8) + d) as char
}

/// The decimal digits of `n`, empty when `n` is zero or less.
pub open spec fn dec_text(n: int) -> Seq<char>
    decreases n,
{
    if n <= 0 {
        Seq::empty()
    } else {
        dec_text(n / 10).push(dec_digit_char(n % 10))
    }
}

/// The base-26 letters of `n`, empty when `n` is zero or less. Each step
/// takes one off `n` because no letter stands for zero.
pub open spec fn col_text(n: int) -> Seq<char>
    decreases n,
{
    if n <= 0 {
        Seq::empty()
    } else {
        col_text((n - 1) / 26).push(col_letter((n - 1) % 26))
    }
}

/// The executable column letter for `d` in 0..26.
fn exec_col_letter(d: u32) -> (r: char)
    requires
        0 <= d < 26,
    ensures
        r == col_letter(d as int),
{
    ((('A' as u8) + (d as u8)) as u8) as char
}

/// The executable decimal digit character for `d` in 0..10.
pub(crate) fn exec_dec_digit_char(d: u32) -> (r: char)
    requires
        0 <= d < 10,
    ensures
        r == dec_digit_char(d as int),
{
    ((('0' as u8) + (d as u8)) as u8) as char
}

} // verus!
