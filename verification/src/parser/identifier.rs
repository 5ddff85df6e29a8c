//! Parser for identifiers: a letter or underscore, then letters, digits and
//! underscores.

use vstd::prelude::*;

use crate::parser::{is_digit, is_letter, lemma_run_end, letter_char, digit_char, run_end};

verus! {

/// A character that may continue an identifier.
pub open spec fn is_ident_char(c: char) -> bool {
    is_letter(c) || is_digit(c) || c == '_'
}

pub open spec fn ident_pred() -> spec_fn(char) -> bool {
    |c: char| is_ident_char(c)
}

/// An identifier starting at `i`: its characters and its end.
pub open spec fn spec_identifier(s: Seq<char>, i: int) -> Option<(Seq<char>, int)> {
    if i < s.len() && (is_letter(s[i]) || s[i] == '_') {
        let j = run_end(s, i + 1, ident_pred());
        Some((s.subrange(i, j), j))
    } else {
        None
    }
}

/// Executable counterpart of [`run_end`] for identifier characters.
fn ident_run(s: &Vec<char>, i: usize) -> (j: usize)
    requires
        i <= s@.len(),
    ensures
        j as int == run_end(s@, i as int, ident_pred()),
        i <= j <= s@.len(),
{
    let mut j = i;
    while j < s.len() && (letter_char(s[j]) || digit_char(s[j]) || s[j] == '_')
        invariant
            i <= j <= s@.len(),
            run_end(s@, i as int, ident_pred()) == run_end(s@, j as int, ident_pred()),
        decreases s@.len() - j,
    {
        j = j + 1;
    }
    proof {
        lemma_run_end(s@, j as int, ident_pred());
    }
    j
}

/// Parses an identifier at `i`.
pub fn parse_identifier(s: &Vec<char>, i: usize) -> (r: Option<(String, usize)>)
    requires
        i <= s@.len(),
    ensures
        (r is Some) == (spec_identifier(s@, i as int) is Some),
        r is Some ==> spec_identifier(s@, i as int) == Some(((r->0).0@, (r->0).1 as int)),
        r is Some ==> i < (r->0).1 <= s@.len(),
{
    if i < s.len() && (letter_char(s[i]) || s[i] == '_') {
        let j = ident_run(s, i + 1);
        proof {
            lemma_run_end(s@, i as int + 1, ident_pred());
        }
        let mut name: Vec<char> = Vec::new();
        let mut k = i;
        while k < j
            invariant
                i <= k <= j <= s@.len(),
                name@ =~= s@.subrange(i as int, k as int),
            decreases j - k,
        {
            name.push(s[k]);
            k = k + 1;
        }
        let text = crate::text::to_string_of(&name);
        Some((text, j))
    } else {
        None
    }
}

} // verus!
