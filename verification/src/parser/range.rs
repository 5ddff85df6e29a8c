//! Parsers for column, row and cell addresses.

use vstd::prelude::*;

use crate::address::{CellAddress, ColAddress, RowAddress};
use crate::decimal::{
    digits_val, lemma_digits_val_extend, lemma_digits_val_last_lb, lemma_digits_val_nonneg,
};
use crate::parser::error::{
    ParseCellAddressError, ParseColumnAddressError, ParseRowAddressError,
};
use crate::parser::{
    digit_of, digit_pred, is_digit, is_letter, letter_pred, letter_run, letter_val, digit_run,
    lemma_run_end, run_end, skip_space, space_pred,
};
use crate::text::to_chars;

verus! {

/// The base-26 values of the letters `s[i..j]`.
pub open spec fn col_vals(s: Seq<char>, i: int, j: int) -> Seq<u8> {
    Seq::new((j - i) as nat, |k: int| letter_val(s[i + k]) as u8)
}

/// The digit values of `s[i..j]`.
pub open spec fn dec_vals(s: Seq<char>, i: int, j: int) -> Seq<u8> {
    Seq::new((j - i) as nat, |k: int| digit_of(s[i + k]) as u8)
}

/// A column address: one or more letters, whose base-26 value must fit.
pub open spec fn spec_col(s: Seq<char>, i: int) -> Option<(u32, int)> {
    let j = run_end(s, i, letter_pred());
    if j == i {
        None
    } else {
        let v = digits_val(col_vals(s, i, j), 26);
        if v <= u32::MAX {
            Some((v as u32, j))
        } else {
            None
        }
    }
}

/// A row address: one or more digits, whose value must be nonzero and fit.
pub open spec fn spec_row(s: Seq<char>, i: int) -> Option<(u32, int)> {
    let j = run_end(s, i, digit_pred());
    if j == i {
        None
    } else {
        let v = digits_val(dec_vals(s, i, j), 10);
        if 1 <= v <= u32::MAX {
            Some((v as u32, j))
        } else {
            None
        }
    }
}

/// A cell address: column letters immediately followed by row digits.
pub open spec fn spec_cell_address(s: Seq<char>, i: int) -> Option<(CellAddress, int)> {
    match spec_col(s, i) {
        None => None,
        Some((c, j)) => match spec_row(s, j) {
            None => None,
            Some((r, k)) => Some(
                (
                    CellAddress {
                        row: RowAddress { n: r },
                        col: ColAddress { n: c },
                    },
                    k,
                ),
            ),
        },
    }
}

/// The executable base-26 letter value, case-insensitive.
pub fn letter_val_exec(c: char) -> (r: u32)
    requires
        is_letter(c),
    ensures
        r == letter_val(c),
        1 <= r <= 26,
{
    let u = c as u32;
    if u >= 97 {
        u - 96
    } else {
        u - 64
    }
}

/// Parses a column address at `i`.
pub fn col_address(s: &Vec<char>, i: usize) -> (r: Option<(ColAddress, usize)>)
    requires
        i <= s@.len(),
    ensures
        (r is Some) == (spec_col(s@, i as int) is Some),
        r is Some ==> spec_col(s@, i as int) == Some(((r->0).0.n, (r->0).1 as int)),
        r is Some ==> i < (r->0).1 <= s@.len() && (r->0).0.n >= 1,
{
    let end = letter_run(s, i);
    proof {
        lemma_run_end(s@, i as int, letter_pred());
    }
    if end == i {
        return None;
    }
    let mut acc: u32 = 0;
    let mut j = i;
    proof {
        assert(col_vals(s@, i as int, i as int) =~= Seq::<u8>::empty());
    }
    while j < end
        invariant
            i <= j <= end <= s@.len(),
            end == run_end(s@, i as int, letter_pred()),
            forall|k: int| i <= k < end ==> is_letter(s@[k]),
            acc as int == digits_val(col_vals(s@, i as int, j as int), 26),
        decreases end - j,
    {
        let d = letter_val_exec(s[j]);
        let ghost pre = col_vals(s@, i as int, j as int);
        let step = match acc.checked_mul(26) {
            Some(x) => x.checked_add(d),
            None => None,
        };
        proof {
            assert(col_vals(s@, i as int, j as int + 1) =~= pre.push(letter_val(s@[j as int]) as u8));
            assert(col_vals(s@, i as int, j as int + 1).drop_last() =~= pre);
        }
        match step {
            Some(x) => {
                acc = x;
            },
            None => {
                proof {
                    // the value up to and including this letter already
                    // exceeds the limit, and more letters only increase it
                    let full = col_vals(s@, i as int, end as int);
                    let part = col_vals(s@, i as int, j as int + 1);
                    assert(digits_val(part, 26) > u32::MAX);
                    let rest = Seq::new((end - j - 1) as nat, |k: int|
                        letter_val(s@[j + 1 + k]) as u8);
                    assert(full.len() == (part + rest).len());
                    assert forall|m: int| 0 <= m < full.len() implies full[m] == (part
                        + rest)[m] by {
                        if m < part.len() {
                            assert((part + rest)[m] == part[m]);
                        } else {
                            assert((part + rest)[m] == rest[m - (j + 1 - i)]);
                        }
                    }
                    assert(full =~= part + rest);
                    lemma_digits_val_extend(part, rest, 26);
                }
                return None;
            },
        }
        j = j + 1;
    }
    proof {
        let full = col_vals(s@, i as int, end as int);
        lemma_digits_val_last_lb(full, 26);
        assert(full.last() == letter_val(s@[end - 1]) as u8);
    }
    Some((ColAddress { n: acc }, end))
}

/// Parses a row address at `i`.
pub fn row_address(s: &Vec<char>, i: usize) -> (r: Option<(RowAddress, usize)>)
    requires
        i <= s@.len(),
    ensures
        (r is Some) == (spec_row(s@, i as int) is Some),
        r is Some ==> spec_row(s@, i as int) == Some(((r->0).0.n, (r->0).1 as int)),
        r is Some ==> i < (r->0).1 <= s@.len() && (r->0).0.n >= 1,
{
    let end = digit_run(s, i);
    proof {
        lemma_run_end(s@, i as int, digit_pred());
    }
    if end == i {
        return None;
    }
    let mut acc: u32 = 0;
    let mut j = i;
    proof {
        assert(dec_vals(s@, i as int, i as int) =~= Seq::<u8>::empty());
    }
    while j < end
        invariant
            i <= j <= end <= s@.len(),
            end == run_end(s@, i as int, digit_pred()),
            forall|k: int| i <= k < end ==> is_digit(s@[k]),
            acc as int == digits_val(dec_vals(s@, i as int, j as int), 10),
        decreases end - j,
    {
        let d = (s[j] as u32) - 48;
        let ghost pre = dec_vals(s@, i as int, j as int);
        let step = match acc.checked_mul(10) {
            Some(x) => x.checked_add(d),
            None => None,
        };
        proof {
            assert(dec_vals(s@, i as int, j as int + 1) =~= pre.push(digit_of(s@[j as int]) as u8));
            assert(dec_vals(s@, i as int, j as int + 1).drop_last() =~= pre);
        }
        match step {
            Some(x) => {
                acc = x;
            },
            None => {
                proof {
                    let full = dec_vals(s@, i as int, end as int);
                    let part = dec_vals(s@, i as int, j as int + 1);
                    assert(digits_val(part, 10) > u32::MAX);
                    let rest = Seq::new((end - j - 1) as nat, |k: int|
                        digit_of(s@[j + 1 + k]) as u8);
                    assert(full.len() == (part + rest).len());
                    assert forall|m: int| 0 <= m < full.len() implies full[m] == (part
                        + rest)[m] by {
                        if m < part.len() {
                            assert((part + rest)[m] == part[m]);
                        } else {
                            assert((part + rest)[m] == rest[m - (j + 1 - i)]);
                        }
                    }
                    assert(full =~= part + rest);
                    lemma_digits_val_extend(part, rest, 10);
                }
                return None;
            },
        }
        j = j + 1;
    }
    if acc == 0 {
        // a row address of zero does not exist
        return None;
    }
    Some((RowAddress { n: acc }, end))
}

/// Parses a cell address at `i`: column letters then row digits.
pub fn cell_address(s: &Vec<char>, i: usize) -> (r: Option<(CellAddress, usize)>)
    requires
        i <= s@.len(),
    ensures
        (r is Some) == (spec_cell_address(s@, i as int) is Some),
        r is Some ==> spec_cell_address(s@, i as int) == Some(((r->0).0, (r->0).1 as int)),
        r is Some ==> i < (r->0).1 <= s@.len() && (r->0).0.valid(),
{
    match col_address(s, i) {
        None => None,
        Some((col, j)) => match row_address(s, j) {
            None => None,
            Some((row, k)) => Some((CellAddress::new(row, col), k)),
        },
    }
}

/// Parses a cell address at `i`; alias of [`cell_address`].
pub fn parse_range(s: &Vec<char>, i: usize) -> (r: Option<(CellAddress, usize)>)
    requires
        i <= s@.len(),
    ensures
        (r is Some) == (spec_cell_address(s@, i as int) is Some),
        r is Some ==> spec_cell_address(s@, i as int) == Some(((r->0).0, (r->0).1 as int)),
        r is Some ==> i < (r->0).1 <= s@.len() && (r->0).0.valid(),
{
    cell_address(s, i)
}

/// A whole-input column address, with spaces allowed around it.
pub open spec fn spec_col_complete(s: Seq<char>) -> Option<u32> {
    let i0 = run_end(s, 0, space_pred());
    match spec_col(s, i0) {
        None => None,
        Some((v, j)) => if run_end(s, j, space_pred()) == s.len() {
            Some(v)
        } else {
            None
        },
    }
}

/// A whole-input row address, with spaces allowed around it.
pub open spec fn spec_row_complete(s: Seq<char>) -> Option<u32> {
    let i0 = run_end(s, 0, space_pred());
    match spec_row(s, i0) {
        None => None,
        Some((v, j)) => if run_end(s, j, space_pred()) == s.len() {
            Some(v)
        } else {
            None
        },
    }
}

/// A whole-input cell address, with spaces allowed around it.
pub open spec fn spec_cell_address_complete(s: Seq<char>) -> Option<CellAddress> {
    let i0 = run_end(s, 0, space_pred());
    match spec_cell_address(s, i0) {
        None => None,
        Some((a, j)) => if run_end(s, j, space_pred()) == s.len() {
            Some(a)
        } else {
            None
        },
    }
}

/// Parses a whole input as a column address.
pub fn parse_col_address_complete(input: &str) -> (r: Result<
    ColAddress,
    ParseColumnAddressError,
>)
    ensures
        (r is Ok) == (spec_col_complete(input@) is Some),
        r is Ok ==> spec_col_complete(input@) == Some(r->Ok_0.n) && r->Ok_0.n >= 1,
        r is Err ==> r->Err_0 == ParseColumnAddressError::InvalidCharacter,
{
    let s = to_chars(input);
    let i0 = skip_space(&s, 0);
    match col_address(&s, i0) {
        None => Err(ParseColumnAddressError::InvalidCharacter),
        Some((col, j)) => {
            let j2 = skip_space(&s, j);
            if j2 == s.len() {
                Ok(col)
            } else {
                Err(ParseColumnAddressError::InvalidCharacter)
            }
        },
    }
}

/// Parses a whole input as a row address.
pub fn parse_row_address_complete(input: &str) -> (r: Result<RowAddress, ParseRowAddressError>)
    ensures
        (r is Ok) == (spec_row_complete(input@) is Some),
        r is Ok ==> spec_row_complete(input@) == Some(r->Ok_0.n) && r->Ok_0.n >= 1,
        r is Err ==> r->Err_0 == ParseRowAddressError::InvalidCharacter,
{
    let s = to_chars(input);
    let i0 = skip_space(&s, 0);
    match row_address(&s, i0) {
        None => Err(ParseRowAddressError::InvalidCharacter),
        Some((row, j)) => {
            let j2 = skip_space(&s, j);
            if j2 == s.len() {
                Ok(row)
            } else {
                Err(ParseRowAddressError::InvalidCharacter)
            }
        },
    }
}

/// Parses a whole input as a cell address.
pub fn parse_cell_address_complete(input: &str) -> (r: Result<
    CellAddress,
    ParseCellAddressError,
>)
    ensures
        (r is Ok) == (spec_cell_address_complete(input@) is Some),
        r is Ok ==> spec_cell_address_complete(input@) == Some(r->Ok_0) && r->Ok_0.valid(),
        r is Err ==> r->Err_0 == ParseCellAddressError::Invalid,
{
    let s = to_chars(input);
    let i0 = skip_space(&s, 0);
    match cell_address(&s, i0) {
        None => Err(ParseCellAddressError::Invalid),
        Some((a, j)) => {
            let j2 = skip_space(&s, j);
            if j2 == s.len() {
                Ok(a)
            } else {
                Err(ParseCellAddressError::Invalid)
            }
        },
    }
}

} // verus!
