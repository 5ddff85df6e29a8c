//! Parser for string literals: double-quoted, contents taken verbatim.

use vstd::prelude::*;

use crate::parser::{lemma_run_end, run_end};

verus! {

pub open spec fn not_quote_pred() -> spec_fn(char) -> bool {
    |c: char| c != '"'
}

/// A string literal at `i`: the text between the quotes and the position
/// after the closing quote. There are no escape sequences: the literal ends
/// at the first `"` after the opening one.
pub open spec fn spec_string(s: Seq<char>, i: int) -> Option<(Seq<char>, int)> {
    if i < s.len() && s[i] == '"' {
        let j = run_end(s, i + 1, not_quote_pred());
        if j < s.len() {
            Some((s.subrange(i + 1, j), j + 1))
        } else {
            None
        }
    } else {
        None
    }
}

/// Executable scan to the closing quote.
fn quote_run(s: &Vec<char>, i: usize) -> (j: usize)
    requires
        i <= s@.len(),
    ensures
        j as int == run_end(s@, i as int, not_quote_pred()),
        i <= j <= s@.len(),
{
    let mut j = i;
    while j < s.len() && s[j] != '"'
        invariant
            i <= j <= s@.len(),
            run_end(s@, i as int, not_quote_pred()) == run_end(s@, j as int, not_quote_pred()),
        decreases s@.len() - j,
    {
        j = j + 1;
    }
    proof {
        lemma_run_end(s@, j as int, not_quote_pred());
    }
    j
}

/// Parses a string literal at `i`.
pub fn parse_string(s: &Vec<char>, i: usize) -> (r: Option<(String, usize)>)
    requires
        i <= s@.len(),
    ensures
        (r is Some) == (spec_string(s@, i as int) is Some),
        r is Some ==> spec_string(s@, i as int) == Some(((r->0).0@, (r->0).1 as int)),
        r is Some ==> i < (r->0).1 <= s@.len(),
{
    if i < s.len() && s[i] == '"' {
        let j = quote_run(s, i + 1);
        if j < s.len() {
            let mut text: Vec<char> = Vec::new();
            let mut k = i + 1;
            while k < j
                invariant
                    i + 1 <= k <= j <= s@.len(),
                    text@ =~= s@.subrange(i as int + 1, k as int),
                decreases j - k,
            {
                text.push(s[k]);
                k = k + 1;
            }
            let out = crate::text::to_string_of(&text);
            Some((out, j + 1))
        } else {
            None
        }
    } else {
        None
    }
}

} // verus!
