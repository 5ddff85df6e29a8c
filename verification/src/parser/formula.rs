//! Parsers for expressions: references, literals and function calls, and
//! the `=`-prefixed formula form.

use vstd::prelude::*;

use crate::formula::{expr_view, exprs_view_rec, lemma_exprs_view_rec, ExprV, Expression};
use crate::parser::identifier::{parse_identifier, spec_identifier};
use crate::parser::number::{parse_number, spec_number};
use crate::parser::range::{cell_address, spec_cell_address};
use crate::parser::string::{parse_string, spec_string};
use crate::parser::{run_end, skip_space, space_pred};
use crate::value::{Value, ValueV};

verus! {

/// A literal: a number, else a string.
pub open spec fn spec_literal(s: Seq<char>, i: int) -> Option<(ValueV, int)> {
    match spec_number(s, i) {
        Some((d, j)) => Some((ValueV::Number(d), j)),
        None => match spec_string(s, i) {
            Some((t, j)) => Some((ValueV::String(t), j)),
            None => None,
        },
    }
}

/// An expression: a cell reference, else a literal, else a call.
pub open spec fn spec_expression(s: Seq<char>, i: int) -> Option<(ExprV, int)>
    decreases s.len() - i, 5int
    when 0 <= i <= s.len()
{
    match spec_cell_address(s, i) {
        Some((a, j)) => Some((ExprV::Reference(a), j)),
        None => match spec_literal(s, i) {
            Some((v, j)) => Some((ExprV::Literal(v), j)),
            None => spec_call(s, i),
        },
    }
}

/// A call: an identifier, spaces, `(`, arguments, spaces, `)`.
pub open spec fn spec_call(s: Seq<char>, i: int) -> Option<(ExprV, int)>
    decreases s.len() - i, 4int
    when 0 <= i <= s.len()
{
    match spec_identifier(s, i) {
        None => None,
        Some((name, j)) => {
            let j2 = if 0 <= j <= s.len() {
                run_end(s, j, space_pred())
            } else {
                j
            };
            if j2 < s.len() && s[j2] == '(' {
                let j3 = run_end(s, j2 + 1, space_pred());
                if i < j3 <= s.len() {
                    let (args, e) = spec_args(s, j3);
                    let j4 = if 0 <= e <= s.len() {
                        run_end(s, e, space_pred())
                    } else {
                        e
                    };
                    if j4 < s.len() && s[j4] == ')' {
                        Some((ExprV::Call { name, args }, j4 + 1))
                    } else {
                        None
                    }
                } else {
                    None
                }
            } else {
                None
            }
        },
    }
}

/// A comma-separated argument list, possibly empty, with an optional
/// trailing comma. An argument followed by spaces and a comma continues the
/// list; a final argument without a comma ends it at its own end.
pub open spec fn spec_args(s: Seq<char>, i: int) -> (Seq<ExprV>, int)
    decreases s.len() - i, 6int
    when 0 <= i <= s.len()
{
    match spec_expression(s, i) {
        None => (Seq::empty(), i),
        Some((e0, j)) => {
            let j2 = if 0 <= j <= s.len() {
                run_end(s, j, space_pred())
            } else {
                j
            };
            if j2 < s.len() && s[j2] == ',' {
                let j3 = run_end(s, j2 + 1, space_pred());
                if i < j3 <= s.len() {
                    let (rest, e) = spec_args(s, j3);
                    (seq![e0] + rest, e)
                } else {
                    (seq![e0], j)
                }
            } else {
                (seq![e0], j)
            }
        },
    }
}

/// A formula: `=`, spaces, an expression.
pub open spec fn spec_formula(s: Seq<char>, i: int) -> Option<(ExprV, int)> {
    if 0 <= i < s.len() && s[i] == '=' {
        let j = run_end(s, i + 1, space_pred());
        if 0 <= j <= s.len() {
            spec_expression(s, j)
        } else {
            None
        }
    } else {
        None
    }
}

/// Parses a literal at `i`.
pub fn parse_literal(s: &Vec<char>, i: usize) -> (r: Option<(Value, usize)>)
    requires
        i <= s@.len(),
    ensures
        (r is Some) == (spec_literal(s@, i as int) is Some),
        r is Some ==> spec_literal(s@, i as int) == Some(((r->0).0@, (r->0).1 as int)),
        r is Some ==> i < (r->0).1 <= s@.len() && (r->0).0@.wf(),
{
    match parse_number(s, i) {
        Some((d, j)) => Some((Value::Number(d), j)),
        None => match parse_string(s, i) {
            Some((t, j)) => Some((Value::String(t), j)),
            None => None,
        },
    }
}

/// Parses an expression at `i`.
pub fn parse_expression(s: &Vec<char>, i: usize) -> (r: Option<(Expression, usize)>)
    requires
        i <= s@.len(),
    ensures
        (r is Some) == (spec_expression(s@, i as int) is Some),
        r is Some ==> spec_expression(s@, i as int) == Some(((r->0).0@, (r->0).1 as int)),
        r is Some ==> i < (r->0).1 <= s@.len() && (r->0).0@.wf(),
    decreases s@.len() - i, 5int,
{
    match cell_address(s, i) {
        Some((a, j)) => Some((Expression::Reference(a), j)),
        None => match parse_literal(s, i) {
            Some((v, j)) => Some((Expression::Literal(v), j)),
            None => parse_call(s, i),
        },
    }
}

/// Parses a call at `i`.
pub fn parse_call(s: &Vec<char>, i: usize) -> (r: Option<(Expression, usize)>)
    requires
        i <= s@.len(),
    ensures
        (r is Some) == (spec_call(s@, i as int) is Some),
        r is Some ==> spec_call(s@, i as int) == Some(((r->0).0@, (r->0).1 as int)),
        r is Some ==> i < (r->0).1 <= s@.len() && (r->0).0@.wf(),
    decreases s@.len() - i, 4int,
{
    match parse_identifier(s, i) {
        None => None,
        Some((name, j)) => {
            let j2 = skip_space(s, j);
            if j2 < s.len() && s[j2] == '(' {
                let j3 = skip_space(s, j2 + 1);
                let (args, e) = parse_args(s, j3);
                let j4 = skip_space(s, e);
                if j4 < s.len() && s[j4] == ')' {
                    proof {
                        lemma_exprs_view_rec(args@);
                        let av = exprs_view_rec(args@);
                        assert forall|k: int| 0 <= k < av.len() implies (#[trigger] av[k]).wf() by {
                            assert(av[k] == expr_view(args@[k]));
                            assert(args@[k]@.wf());
                        }
                    }
                    Some((Expression::Call { name, arguments: args }, j4 + 1))
                } else {
                    None
                }
            } else {
                None
            }
        },
    }
}

/// Parses an argument list at `i`; never fails.
pub fn parse_args(s: &Vec<char>, i: usize) -> (r: (Vec<Expression>, usize))
    requires
        i <= s@.len(),
    ensures
        ({
            let (av, e) = spec_args(s@, i as int);
            &&& exprs_view_rec(r.0@) == av
            &&& r.1 as int == e
            &&& i <= r.1 <= s@.len()
            &&& forall|k: int| 0 <= k < r.0@.len() ==> (#[trigger] r.0@[k]@).wf()
        }),
    decreases s@.len() - i, 6int,
{
    match parse_expression(s, i) {
        None => {
            let empty: Vec<Expression> = Vec::new();
            proof {
                assert(exprs_view_rec(empty@) =~= Seq::<ExprV>::empty());
            }
            (empty, i)
        },
        Some((e0, j)) => {
            let j2 = skip_space(s, j);
            if j2 < s.len() && s[j2] == ',' {
                let j3 = skip_space(s, j2 + 1);
                let (rest, e) = parse_args(s, j3);
                let ghost e0v = e0@;
                let ghost restv = rest@;
                let mut out: Vec<Expression> = Vec::new();
                out.push(e0);
                let mut tail = rest;
                while tail.len() > 0
                    invariant
                        out@.len() >= 1,
                        out@[0]@ == e0v,
                        out@.len() + tail@.len() == 1 + restv.len(),
                        forall|k: int| 0 <= k < out@.len() - 1 ==> out@[k + 1]@ == restv[k]@,
                        forall|k: int| 0 <= k < tail@.len() ==> tail@[k]@ == restv[
                            k + out@.len() - 1]@,
                    decreases tail@.len(),
                {
                    let x = tail.remove(0);
                    out.push(x);
                }
                proof {
                    lemma_exprs_view_rec(out@);
                    lemma_exprs_view_rec(restv);
                    assert(exprs_view_rec(out@) =~= seq![e0v] + exprs_view_rec(restv));
                    assert forall|k: int| 0 <= k < out@.len() implies (#[trigger] out@[k]@).wf() by {
                        if k == 0 {
                            assert(out@[0]@ == e0v);
                        } else {
                            assert(out@[k]@ == restv[k - 1]@);
                            assert(restv[k - 1]@.wf());
                        }
                    }
                }
                (out, e)
            } else {
                let mut out: Vec<Expression> = Vec::new();
                let ghost e0v = e0@;
                out.push(e0);
                proof {
                    lemma_exprs_view_rec(out@);
                    assert(exprs_view_rec(out@) =~= seq![e0v]);
                    assert(out@[0]@ == e0v);
                }
                (out, j)
            }
        },
    }
}

/// Parses a formula at `i`: `=`, spaces, an expression.
pub fn parse_formula(s: &Vec<char>, i: usize) -> (r: Option<(Expression, usize)>)
    requires
        i <= s@.len(),
    ensures
        (r is Some) == (spec_formula(s@, i as int) is Some),
        r is Some ==> spec_formula(s@, i as int) == Some(((r->0).0@, (r->0).1 as int)),
        r is Some ==> i < (r->0).1 <= s@.len() && (r->0).0@.wf(),
{
    if i < s.len() && s[i] == '=' {
        let j = skip_space(s, i + 1);
        parse_expression(s, j)
    } else {
        None
    }
}

} // verus!
