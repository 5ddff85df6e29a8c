//! Parsers for the cell-input grammar.
//!
//! Every parser exists twice: as a specification function over `Seq<char>`
//! positions, which is the grammar itself, and as an executable function over
//! a `Vec<char>` cursor, proved to return exactly what the specification
//! says. Parsers return the parsed value and the position after it; a parser
//! consumes nothing on failure, and the complete entry points reject inputs
//! with trailing text.

pub mod error;
pub mod formula;
pub mod identifier;
pub mod number;
pub mod range;
pub mod string;

use vstd::prelude::*;

pub use error::{
    ParseCellAddressError, ParseColumnAddressError, ParseFormulaError, ParseRowAddressError,
};

use crate::formula::{Formula as CellFormula, FormulaV};
use crate::value::{Value, ValueV};

verus! {

/// A plain cell value: nothing at all, a number, or a string.
pub open spec fn spec_value(s: Seq<char>, i: int) -> Option<(ValueV, int)> {
    if i == s.len() {
        Some((ValueV::Empty, i))
    } else {
        match number::spec_number(s, i) {
            Some((d, j)) => Some((ValueV::Number(d), j)),
            None => match string::spec_string(s, i) {
                Some((t, j)) => Some((ValueV::String(t), j)),
                None => None,
            },
        }
    }
}

/// A whole cell: a formula if the input starts with `=`, else a plain value.
pub open spec fn spec_cell(s: Seq<char>, i: int) -> Option<(FormulaV, int)> {
    match formula::spec_formula(s, i) {
        Some((e, j)) => Some((FormulaV::Formula(e), j)),
        None => match spec_value(s, i) {
            Some((v, j)) => Some((FormulaV::Literal(v), j)),
            None => None,
        },
    }
}

/// A whole input parsed as one cell, with spaces allowed around it and
/// nothing after it. Empty input is the empty literal.
pub open spec fn spec_cell_complete(s: Seq<char>) -> Option<FormulaV> {
    let i0 = run_end(s, 0, space_pred());
    match spec_cell(s, i0) {
        Some((f, j)) => if 0 <= j <= s.len() && run_end(s, j, space_pred()) == s.len() {
            Some(f)
        } else {
            None
        },
        None => None,
    }
}

/// Parses a plain cell value at `i`.
pub fn parse_value(s: &Vec<char>, i: usize) -> (r: Option<(Value, usize)>)
    requires
        i <= s@.len(),
    ensures
        (r is Some) == (spec_value(s@, i as int) is Some),
        r is Some ==> spec_value(s@, i as int) == Some(((r->0).0@, (r->0).1 as int)),
        r is Some ==> i <= (r->0).1 <= s@.len() && (r->0).0@.wf(),
{
    if i == s.len() {
        return Some((Value::Empty, i));
    }
    match number::parse_number(s, i) {
        Some((d, j)) => Some((Value::Number(d), j)),
        None => match string::parse_string(s, i) {
            Some((t, j)) => Some((Value::String(t), j)),
            None => None,
        },
    }
}

/// Parses a whole cell at `i`.
pub fn parse_cell(s: &Vec<char>, i: usize) -> (r: Option<(CellFormula, usize)>)
    requires
        i <= s@.len(),
    ensures
        (r is Some) == (spec_cell(s@, i as int) is Some),
        r is Some ==> spec_cell(s@, i as int) == Some(((r->0).0@, (r->0).1 as int)),
        r is Some ==> i <= (r->0).1 <= s@.len() && (r->0).0@.wf(),
{
    match formula::parse_formula(s, i) {
        Some((e, j)) => Some((CellFormula::Formula(e), j)),
        None => match parse_value(s, i) {
            Some((v, j)) => Some((CellFormula::Literal(v), j)),
            None => None,
        },
    }
}

/// Parses a whole input as one cell; trailing text is rejected.
pub fn parse_cell_complete(input: &str) -> (r: Result<CellFormula, ParseFormulaError>)
    ensures
        (r is Ok) == (spec_cell_complete(input@) is Some),
        r is Ok ==> spec_cell_complete(input@) == Some(r->Ok_0@) && r->Ok_0@.wf(),
        r is Err ==> r->Err_0 == ParseFormulaError::Invalid,
{
    let s = crate::text::to_chars(input);
    let i0 = skip_space(&s, 0);
    match parse_cell(&s, i0) {
        None => Err(ParseFormulaError::Invalid),
        Some((f, j)) => {
            let j2 = skip_space(&s, j);
            if j2 == s.len() {
                Ok(f)
            } else {
                Err(ParseFormulaError::Invalid)
            }
        },
    }
}

// --- character classes ---

/// Space characters permitted around tokens: blank and tab.
pub open spec fn is_space(c: char) -> bool {
    c == ' ' || c == '\t'
}

/// ASCII decimal digit.
pub open spec fn is_digit(c: char) -> bool {
    '0' as int <= c as int <= '9' as int
}

/// ASCII letter, either case.
pub open spec fn is_letter(c: char) -> bool {
    ('A' as int <= c as int <= 'Z' as int) || ('a' as int <= c as int <= 'z' as int)
}

/// The value of a decimal digit character.
pub open spec fn digit_of(c: char) -> int {
    c as int - '0' as int
}

/// The base-26 value of a column letter, case-insensitive: `A` and `a`
/// are 1, `Z` and `z` are 26.
pub open spec fn letter_val(c: char) -> int {
    if 'a' as int <= c as int {
        c as int - 'a' as int + 1
    } else {
        c as int - 'A' as int + 1
    }
}

pub open spec fn space_pred() -> spec_fn(char) -> bool {
    |c: char| is_space(c)
}

pub open spec fn digit_pred() -> spec_fn(char) -> bool {
    |c: char| is_digit(c)
}

pub open spec fn letter_pred() -> spec_fn(char) -> bool {
    |c: char| is_letter(c)
}

// --- runs of characters ---

/// The end of the run of characters satisfying `p` that starts at `i`.
pub open spec fn run_end(s: Seq<char>, i: int, p: spec_fn(char) -> bool) -> int
    decreases s.len() - i
    when 0 <= i <= s.len()
{
    if i < s.len() && p(s[i]) {
        run_end(s, i + 1, p)
    } else {
        i
    }
}

/// A run ends within the input, covers only characters satisfying `p`, and
/// stops at the first character that does not satisfy it.
pub proof fn lemma_run_end(s: Seq<char>, i: int, p: spec_fn(char) -> bool)
    requires
        0 <= i <= s.len(),
    ensures
        i <= run_end(s, i, p) <= s.len(),
        forall|k: int| i <= k < run_end(s, i, p) ==> p(s[k]),
        run_end(s, i, p) < s.len() ==> !p(s[run_end(s, i, p)]),
    decreases s.len() - i,
{
    if i < s.len() && p(s[i]) {
        lemma_run_end(s, i + 1, p);
    }
}

/// Executable counterpart of [`run_end`] for spaces.
pub fn skip_space(s: &Vec<char>, i: usize) -> (j: usize)
    requires
        i <= s@.len(),
    ensures
        j as int == run_end(s@, i as int, space_pred()),
        i <= j <= s@.len(),
{
    let mut j = i;
    while j < s.len() && (s[j] == ' ' || s[j] == '\t')
        invariant
            i <= j <= s@.len(),
            run_end(s@, i as int, space_pred()) == run_end(s@, j as int, space_pred()),
        decreases s@.len() - j,
    {
        j = j + 1;
    }
    proof {
        lemma_run_end(s@, j as int, space_pred());
    }
    j
}

/// Whether `c` is an ASCII decimal digit.
pub fn digit_char(c: char) -> (r: bool)
    ensures
        r == is_digit(c),
{
    let u = c as u32;
    48 <= u && u <= 57
}

/// Whether `c` is an ASCII letter.
pub fn letter_char(c: char) -> (r: bool)
    ensures
        r == is_letter(c),
{
    let u = c as u32;
    (65 <= u && u <= 90) || (97 <= u && u <= 122)
}

/// Executable counterpart of [`run_end`] for decimal digits.
pub fn digit_run(s: &Vec<char>, i: usize) -> (j: usize)
    requires
        i <= s@.len(),
    ensures
        j as int == run_end(s@, i as int, digit_pred()),
        i <= j <= s@.len(),
{
    let mut j = i;
    while j < s.len() && digit_char(s[j])
        invariant
            i <= j <= s@.len(),
            run_end(s@, i as int, digit_pred()) == run_end(s@, j as int, digit_pred()),
        decreases s@.len() - j,
    {
        j = j + 1;
    }
    proof {
        lemma_run_end(s@, j as int, digit_pred());
    }
    j
}

/// Executable counterpart of [`run_end`] for letters.
pub fn letter_run(s: &Vec<char>, i: usize) -> (j: usize)
    requires
        i <= s@.len(),
    ensures
        j as int == run_end(s@, i as int, letter_pred()),
        i <= j <= s@.len(),
{
    let mut j = i;
    while j < s.len() && letter_char(s[j])
        invariant
            i <= j <= s@.len(),
            run_end(s@, i as int, letter_pred()) == run_end(s@, j as int, letter_pred()),
        decreases s@.len() - j,
    {
        j = j + 1;
    }
    proof {
        lemma_run_end(s@, j as int, letter_pred());
    }
    j
}

} // verus!
