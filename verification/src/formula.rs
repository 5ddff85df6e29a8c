//! Formulas: the parsed representation of what is put into a cell.
//!
//! A formula is either a bare literal (plain input such as `1`) or an
//! expression (input starting with `=`). Expressions are trees of literals,
//! single-cell references and function calls.

pub mod error;

use vstd::prelude::*;

use crate::address::CellAddress;
use crate::value::{Value, ValueV};

pub use error::{FormulaError, FormulaErrorKind};

verus! {

/// An expression node: a literal value, a reference to another cell, or a
/// call of a registered function.
#[derive(Debug)]
pub enum Expression {
    Literal(Value),
    Reference(CellAddress),
    Call { name: String, arguments: Vec<Expression> },
}

/// The mathematical content of an [`Expression`].
pub enum ExprV {
    Literal(ValueV),
    Reference(CellAddress),
    Call { name: Seq<char>, args: Seq<ExprV> },
}

/// What was parsed from a cell's input: a plain literal or an expression.
#[derive(Debug)]
pub enum Formula {
    Literal(Value),
    Formula(Expression),
}

/// The mathematical content of a [`Formula`].
pub enum FormulaV {
    Literal(ValueV),
    Formula(ExprV),
}

/// The view of one expression; recursion partner of [`exprs_view_rec`].
pub open spec fn expr_view(e: Expression) -> ExprV
    decreases e,
{
    match e {
        Expression::Literal(v) => ExprV::Literal(v@),
        Expression::Reference(a) => ExprV::Reference(a),
        Expression::Call { name, arguments } => ExprV::Call {
            name: name@,
            args: exprs_view_rec(arguments@),
        },
    }
}

/// The views of a sequence of expressions, built back to front.
pub open spec fn exprs_view_rec(s: Seq<Expression>) -> Seq<ExprV>
    decreases s,
{
    if s.len() == 0 {
        Seq::empty()
    } else {
        exprs_view_rec(s.drop_last()).push(expr_view(s.last()))
    }
}

/// Each element of [`exprs_view_rec`] is the view of the matching element.
pub proof fn lemma_exprs_view_rec(s: Seq<Expression>)
    ensures
        exprs_view_rec(s).len() == s.len(),
        forall|i: int| 0 <= i < s.len() ==> exprs_view_rec(s)[i] == expr_view(s[i]),
    decreases s,
{
    if s.len() > 0 {
        lemma_exprs_view_rec(s.drop_last());
    }
}

impl View for Expression {
    type V = ExprV;

    open spec fn view(&self) -> ExprV {
        expr_view(*self)
    }
}

impl View for Formula {
    type V = FormulaV;

    open spec fn view(&self) -> FormulaV {
        match self {
            Formula::Literal(v) => FormulaV::Literal(v@),
            Formula::Formula(e) => FormulaV::Formula(e@),
        }
    }
}

impl ExprV {
    /// Every cell address referenced in the expression, left to right,
    /// recursing through call arguments.
    pub open spec fn deps(self) -> Seq<CellAddress>
        decreases self,
    {
        match self {
            ExprV::Literal(_) => Seq::empty(),
            ExprV::Reference(a) => seq![a],
            ExprV::Call { name, args } => ExprV::deps_of_args(args),
        }
    }

    /// The concatenated dependencies of a list of expressions.
    pub open spec fn deps_of_args(args: Seq<ExprV>) -> Seq<CellAddress>
        decreases args,
    {
        if args.len() == 0 {
            Seq::empty()
        } else {
            args.first().deps() + Self::deps_of_args(args.drop_first())
        }
    }

    /// Number literals in the expression hold well-formed decimals.
    pub open spec fn wf(self) -> bool
        decreases self,
    {
        match self {
            ExprV::Literal(v) => v.wf(),
            ExprV::Reference(a) => a.valid(),
            ExprV::Call { name, args } => forall|i: int|
                0 <= i < args.len() ==> #[trigger] args[i].wf(),
        }
    }
}

impl FormulaV {
    /// The referenced cell addresses; a bare literal has none.
    pub open spec fn deps(self) -> Seq<CellAddress> {
        match self {
            FormulaV::Literal(_) => Seq::empty(),
            FormulaV::Formula(e) => e.deps(),
        }
    }

    /// Number literals in the formula hold well-formed decimals.
    pub open spec fn wf(self) -> bool {
        match self {
            FormulaV::Literal(v) => v.wf(),
            FormulaV::Formula(e) => e.wf(),
        }
    }
}

/// Something a sheet can evaluate: it has dependencies on cells and a value
/// in a given sheet state.
pub trait Evaluate {
    /// The cell addresses the node depends on, in left-to-right order.
    spec fn spec_deps(&self) -> Seq<CellAddress>;

    /// The node's value against the given cells and functions.
    spec fn spec_eval_in(
        &self,
        cells: Map<CellAddress, crate::cell::CellV>,
        funs: Map<Seq<char>, crate::sheet::Function>,
    ) -> ValueV;

    /// Every referenced cell address, in order, recursing through call
    /// arguments.
    fn visit_dependecies(&self) -> (r: Vec<CellAddress>)
        ensures
            r@ == self.spec_deps(),
    ;

    /// The node's value against the given sheet.
    fn evaluate(&self, context: &crate::sheet::Sheet) -> (r: Value)
        requires
            context.wf(),
        ensures
            r@ == self.spec_eval_in(context.cells_map(), context.funs_map()),
    ;
}

impl Evaluate for Expression {
    open spec fn spec_deps(&self) -> Seq<CellAddress> {
        self@.deps()
    }

    open spec fn spec_eval_in(
        &self,
        cells: Map<CellAddress, crate::cell::CellV>,
        funs: Map<Seq<char>, crate::sheet::Function>,
    ) -> ValueV {
        crate::sheet::spec_eval(self@, cells, funs)
    }

    fn visit_dependecies(&self) -> (r: Vec<CellAddress>) {
        expr_deps(self)
    }

    fn evaluate(&self, context: &crate::sheet::Sheet) -> (r: Value) {
        crate::sheet::eval_expr(self, context)
    }
}

impl Evaluate for Formula {
    open spec fn spec_deps(&self) -> Seq<CellAddress> {
        self@.deps()
    }

    open spec fn spec_eval_in(
        &self,
        cells: Map<CellAddress, crate::cell::CellV>,
        funs: Map<Seq<char>, crate::sheet::Function>,
    ) -> ValueV {
        crate::sheet::spec_eval_formula(self@, cells, funs)
    }

    fn visit_dependecies(&self) -> (r: Vec<CellAddress>) {
        match self {
            Formula::Literal(_) => Vec::new(),
            Formula::Formula(e) => expr_deps(e),
        }
    }

    fn evaluate(&self, context: &crate::sheet::Sheet) -> (r: Value) {
        match self {
            Formula::Literal(v) => v.clone(),
            Formula::Formula(e) => crate::sheet::eval_expr(e, context),
        }
    }
}

/// Concatenated dependencies distribute over an appended argument.
pub proof fn lemma_deps_of_args_push(args: Seq<ExprV>, x: ExprV)
    ensures
        ExprV::deps_of_args(args.push(x)) == ExprV::deps_of_args(args) + x.deps(),
    decreases args.len(),
{
    reveal_with_fuel(ExprV::deps_of_args, 3);
    if args.len() == 0 {
        assert(args.push(x).first() == x);
        assert(args.push(x).drop_first() =~= Seq::<ExprV>::empty());
        assert(ExprV::deps_of_args(args.push(x)) =~= ExprV::deps_of_args(args) + x.deps());
    } else {
        assert(args.push(x).first() == args.first());
        assert(args.push(x).drop_first() =~= args.drop_first().push(x));
        lemma_deps_of_args_push(args.drop_first(), x);
        assert(ExprV::deps_of_args(args.push(x)) == args.first().deps() + ExprV::deps_of_args(
            args.drop_first().push(x),
        ));
        assert(ExprV::deps_of_args(args) == args.first().deps() + ExprV::deps_of_args(
            args.drop_first(),
        ));
        assert(args.first().deps() + (ExprV::deps_of_args(args.drop_first()) + x.deps())
            =~= (args.first().deps() + ExprV::deps_of_args(args.drop_first())) + x.deps());
    }
}

/// Collects every referenced cell address of an expression, in order.
pub fn expr_deps(e: &Expression) -> (r: Vec<CellAddress>)
    ensures
        r@ == e@.deps(),
    decreases *e,
{
    match e {
        Expression::Literal(_) => Vec::new(),
        Expression::Reference(a) => {
            let mut out: Vec<CellAddress> = Vec::new();
            out.push(*a);
            proof {
                assert(out@ =~= seq![*a]);
            }
            out
        },
        Expression::Call { name, arguments } => {
            let mut out: Vec<CellAddress> = Vec::new();
            let mut k: usize = 0;
            proof {
                assert(exprs_view_rec(arguments@).take(0) =~= Seq::<ExprV>::empty());
                assert(out@ =~= ExprV::deps_of_args(exprs_view_rec(arguments@).take(0)));
            }
            while k < arguments.len()
                invariant
                    k <= arguments@.len(),
                    e == &(Expression::Call { name: *name, arguments: *arguments }),
                    out@ == ExprV::deps_of_args(exprs_view_rec(arguments@).take(k as int)),
                decreases arguments@.len() - k,
            {
                proof {
                    assert(decreases_to!(*e => e->Call_arguments));
                    assert(decreases_to!(*arguments => arguments@));
                    assert(decreases_to!(arguments@ => arguments@[k as int]));
                }
                let mut part = expr_deps(&arguments[k]);
                let ghost outv = out@;
                let ghost partv = part@;
                let mut m: usize = 0;
                while m < part.len()
                    invariant
                        m <= partv.len(),
                        part@ == partv,
                        out@ == outv + partv.take(m as int),
                    decreases partv.len() - m,
                {
                    out.push(part[m]);
                    m = m + 1;
                    proof {
                        assert(out@ =~= outv + partv.take(m as int));
                    }
                }
                k = k + 1;
                proof {
                    lemma_exprs_view_rec(arguments@);
                    let t = exprs_view_rec(arguments@).take(k as int);
                    assert(t.drop_last() =~= exprs_view_rec(arguments@).take(k as int - 1));
                    assert(t.last() == arguments@[k as int - 1]@);
                    lemma_deps_of_args_push(t.drop_last(), t.last());
                    assert(t =~= t.drop_last().push(t.last()));
                    assert(partv.take(m as int) =~= partv);
                    assert(out@ =~= ExprV::deps_of_args(t));
                }
            }
            proof {
                lemma_exprs_view_rec(arguments@);
                assert(exprs_view_rec(arguments@).take(arguments@.len() as int)
                    =~= exprs_view_rec(arguments@));
            }
            out
        },
    }
}

impl Default for Formula {
    /// A fresh cell holds the empty literal.
    fn default() -> (r: Self)
        ensures
            r@ == FormulaV::Literal(ValueV::Empty),
    {
        Formula::Literal(Value::Empty)
    }
}

} // verus!
