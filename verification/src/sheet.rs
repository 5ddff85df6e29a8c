//! The sheet: the cells, the dependency graph over their addresses, the
//! registered functions, and the recalculation engine.
//!
//! The dependency graph is kept as an edge list: an edge `(a, b)` means that
//! the formula of cell `b` references cell `a`, so data flows from `a` to
//! `b`. The well-formedness invariant ties the edges exactly to the current
//! formulas. Recalculation walks the cells reachable from an edited address
//! in topological order, column-major address order breaking ties; cells on
//! or downstream of a reference cycle receive the cycle error as their
//! value.

use vstd::prelude::*;

use crate::address::CellAddress;
use crate::cell::{Cell, CellV};
use crate::formula::{exprs_view_rec, lemma_exprs_view_rec, Formula, FormulaError, FormulaErrorKind, FormulaV, ExprV, Expression};
use crate::value::{Error, Value, ValueV};

verus! {

broadcast use vstd::seq_lib::group_seq_properties;

/// A callable registered by the host under a name: a function from argument
/// values to a result value.
#[verifier::external_body]
pub struct Function {
    f: Box<dyn Fn(&[Value]) -> Value + 'static>,
}

/// The result of applying a registered callable to argument values. Hosts
/// must register callables that are pure (their result depends on their
/// arguments alone), so the result of a given callable on given values is a
/// single value, which this names.
pub uninterp spec fn fn_result(f: Function, args: Seq<ValueV>) -> ValueV;

/// The views of a sequence of values.
pub open spec fn vals_view(s: Seq<Value>) -> Seq<ValueV> {
    Seq::new(s.len(), |i: int| s[i]@)
}

impl Function {
    /// Wraps a callable of the host. The callable must be pure: it must
    /// depend on its arguments alone and must not touch the sheet.
    #[verifier::external_body]
    pub fn new<F: Fn(&[Value]) -> Value + 'static>(f: F) -> Function {
        Function { f: Box::new(f) }
    }

    /// Relies on the wrapped callable being pure, which the library
    /// requires of hosts: applying it returns the one value named by
    /// [`fn_result`].
    #[verifier::external_body]
    fn apply(&self, args: &Vec<Value>) -> (r: Value)
        ensures
            r@ == fn_result(*self, vals_view(args@)),
    {
        (self.f)(args)
    }
}

// --- association lists and their map and set views ---

/// The map held by an association list of cells, later entries winning.
pub open spec fn cells_map_of(s: Seq<(CellAddress, Cell)>) -> Map<CellAddress, CellV>
    decreases s.len(),
{
    if s.len() == 0 {
        Map::empty()
    } else {
        cells_map_of(s.drop_last()).insert(s.last().0, s.last().1@)
    }
}

/// No two entries share an address.
pub open spec fn cells_unique(s: Seq<(CellAddress, Cell)>) -> bool {
    forall|i: int, j: int| 0 <= i < j < s.len() ==> (#[trigger] s[i]).0 != (#[trigger] s[j]).0
}

/// What the cell map holds, entry by entry.
pub proof fn lemma_cells_map(s: Seq<(CellAddress, Cell)>)
    requires
        cells_unique(s),
    ensures
        forall|k: CellAddress| cells_map_of(s).contains_key(k) <==> exists|i: int|
            0 <= i < s.len() && (#[trigger] s[i]).0 == k,
        forall|i: int| 0 <= i < s.len() ==> cells_map_of(s).contains_key((#[trigger] s[i]).0)
            && cells_map_of(s)[s[i].0] == s[i].1@,
    decreases s.len(),
{
    if s.len() > 0 {
        lemma_cells_map(s.drop_last());
        assert forall|i: int| 0 <= i < s.len() implies cells_map_of(s).contains_key(
            (#[trigger] s[i]).0,
        ) && cells_map_of(s)[s[i].0] == s[i].1@ by {
            if i < s.len() - 1 {
                assert(s.drop_last()[i] == s[i]);
                assert(s[i].0 != s.last().0);
            }
        }
        assert forall|k: CellAddress| cells_map_of(s).contains_key(k) implies exists|i: int|
            0 <= i < s.len() && (#[trigger] s[i]).0 == k by {
            if k == s.last().0 {
                assert(s[s.len() - 1].0 == k);
            } else {
                assert(cells_map_of(s.drop_last()).contains_key(k));
                let i = choose|i: int| 0 <= i < s.len() - 1 && (#[trigger] s.drop_last()[i]).0
                    == k;
                assert(s[i] == s.drop_last()[i]);
                assert(s[i].0 == k);
            }
        }
    }
}

/// The set held by an edge list.
pub open spec fn edge_set_of(s: Seq<(CellAddress, CellAddress)>) -> Set<
    (CellAddress, CellAddress),
>
    decreases s.len(),
{
    if s.len() == 0 {
        Set::empty()
    } else {
        edge_set_of(s.drop_last()).insert(s.last())
    }
}

/// What the edge set holds, entry by entry.
pub proof fn lemma_edge_set(s: Seq<(CellAddress, CellAddress)>)
    ensures
        forall|e: (CellAddress, CellAddress)| edge_set_of(s).contains(e) <==> exists|i: int|
            0 <= i < s.len() && (#[trigger] s[i]) == e,
    decreases s.len(),
{
    if s.len() > 0 {
        lemma_edge_set(s.drop_last());
        assert forall|e: (CellAddress, CellAddress)| edge_set_of(s).contains(e) implies exists|
            i: int,
        |
            0 <= i < s.len() && (#[trigger] s[i]) == e by {
            if e == s.last() {
                assert(s[s.len() - 1] == e);
            } else {
                assert(edge_set_of(s.drop_last()).contains(e));
                let i = choose|i: int| 0 <= i < s.len() - 1 && (#[trigger] s.drop_last()[i])
                    == e;
                assert(s[i] == s.drop_last()[i]);
                assert(s[i] == e);
            }
        }
        assert forall|e: (CellAddress, CellAddress)|
            (exists|i: int| 0 <= i < s.len() && (#[trigger] s[i]) == e) implies edge_set_of(
            s,
        ).contains(e) by {
            let i = choose|i: int| 0 <= i < s.len() && (#[trigger] s[i]) == e;
            if i < s.len() - 1 {
                assert(s.drop_last()[i] == e);
                assert(edge_set_of(s.drop_last()).contains(e));
            }
        }
    }
}

/// The map held by an association list of functions, later entries winning.
pub open spec fn funs_map_of(s: Seq<(String, Function)>) -> Map<Seq<char>, Function>
    decreases s.len(),
{
    if s.len() == 0 {
        Map::empty()
    } else {
        funs_map_of(s.drop_last()).insert(s.last().0@, s.last().1)
    }
}

/// No two entries share a name.
pub open spec fn funs_unique(s: Seq<(String, Function)>) -> bool {
    forall|i: int, j: int| 0 <= i < j < s.len() ==> (#[trigger] s[i]).0@ != (#[trigger] s[j]).0@
}

/// What the function map holds, entry by entry.
pub proof fn lemma_funs_map(s: Seq<(String, Function)>)
    requires
        funs_unique(s),
    ensures
        forall|k: Seq<char>| funs_map_of(s).contains_key(k) <==> exists|i: int|
            0 <= i < s.len() && (#[trigger] s[i]).0@ == k,
        forall|i: int| 0 <= i < s.len() ==> funs_map_of(s).contains_key((#[trigger] s[i]).0@)
            && funs_map_of(s)[s[i].0@] == s[i].1,
    decreases s.len(),
{
    if s.len() > 0 {
        lemma_funs_map(s.drop_last());
        assert forall|i: int| 0 <= i < s.len() implies funs_map_of(s).contains_key(
            (#[trigger] s[i]).0@,
        ) && funs_map_of(s)[s[i].0@] == s[i].1 by {
            if i < s.len() - 1 {
                assert(s.drop_last()[i] == s[i]);
                assert(s[i].0@ != s.last().0@);
            }
        }
        assert forall|k: Seq<char>| funs_map_of(s).contains_key(k) implies exists|i: int|
            0 <= i < s.len() && (#[trigger] s[i]).0@ == k by {
            if k == s.last().0@ {
                assert(s[s.len() - 1].0@ == k);
            } else {
                assert(funs_map_of(s.drop_last()).contains_key(k));
                let i = choose|i: int| 0 <= i < s.len() - 1 && (#[trigger] s.drop_last()[i]).0@
                    == k;
                assert(s[i] == s.drop_last()[i]);
                assert(s[i].0@ == k);
            }
        }
    }
}

// --- evaluation ---

/// The value of an expression against a sheet state: literals are
/// themselves, references read the referenced cell's value (empty when the
/// cell does not exist), and calls evaluate their arguments left to right
/// and apply the registered function, or give the undefined error.
pub open spec fn spec_eval(
    e: ExprV,
    cells: Map<CellAddress, CellV>,
    funs: Map<Seq<char>, Function>,
) -> ValueV
    decreases e,
{
    match e {
        ExprV::Literal(v) => v,
        ExprV::Reference(a) => if cells.contains_key(a) {
            cells[a].value
        } else {
            ValueV::Empty
        },
        ExprV::Call { name, args } => {
            let vals = spec_eval_args(args, cells, funs);
            if funs.contains_key(name) {
                fn_result(funs[name], vals)
            } else {
                ValueV::Error(Error::Undefined)
            }
        },
    }
}

/// The values of a list of argument expressions.
pub open spec fn spec_eval_args(
    args: Seq<ExprV>,
    cells: Map<CellAddress, CellV>,
    funs: Map<Seq<char>, Function>,
) -> Seq<ValueV>
    decreases args,
{
    if args.len() == 0 {
        Seq::empty()
    } else {
        spec_eval_args(args.drop_last(), cells, funs).push(spec_eval(args.last(), cells, funs))
    }
}

/// The value of a formula: a literal is itself, an expression is evaluated.
pub open spec fn spec_eval_formula(
    f: FormulaV,
    cells: Map<CellAddress, CellV>,
    funs: Map<Seq<char>, Function>,
) -> ValueV {
    match f {
        FormulaV::Literal(v) => v,
        FormulaV::Formula(e) => spec_eval(e, cells, funs),
    }
}

/// Membership in the concatenated dependencies of an argument list.
pub proof fn lemma_deps_of_args(args: Seq<ExprV>)
    ensures
        forall|x: CellAddress| ExprV::deps_of_args(args).contains(x) <==> exists|i: int|
            0 <= i < args.len() && (#[trigger] args[i]).deps().contains(x),
    decreases args.len(),
{
    if args.len() > 0 {
        lemma_deps_of_args(args.drop_first());
        assert forall|x: CellAddress| ExprV::deps_of_args(args).contains(x) implies exists|
            i: int,
        |
            0 <= i < args.len() && (#[trigger] args[i]).deps().contains(x) by {
            if args.first().deps().contains(x) {
                assert(args[0].deps().contains(x));
            } else {
                assert(ExprV::deps_of_args(args.drop_first()).contains(x));
                let i = choose|i: int| 0 <= i < args.len() - 1 && (#[trigger] args.drop_first(
                )[i]).deps().contains(x);
                assert(args[i + 1].deps().contains(x));
            }
        }
        assert forall|x: CellAddress|
            (exists|i: int| 0 <= i < args.len() && (#[trigger] args[i]).deps().contains(x))
            implies ExprV::deps_of_args(args).contains(x) by {
            let i = choose|i: int| 0 <= i < args.len() && (#[trigger] args[i]).deps().contains(
                x,
            );
            if i == 0 {
                let k = choose|k: int| 0 <= k < args[0].deps().len() && args[0].deps()[k] == x;
                assert(ExprV::deps_of_args(args)[k] == x);
            } else {
                assert(args.drop_first()[i - 1].deps().contains(x));
                assert(ExprV::deps_of_args(args.drop_first()).contains(x));
                let k = choose|k: int|
                    0 <= k < ExprV::deps_of_args(args.drop_first()).len()
                        && ExprV::deps_of_args(args.drop_first())[k] == x;
                assert(ExprV::deps_of_args(args)[args.first().deps().len() + k] == x);
            }
        }
    }
}

/// Evaluation reads the sheet only at the expression's dependencies: two
/// states that agree there and have the same functions evaluate alike.
pub proof fn lemma_eval_frame(
    e: ExprV,
    cells1: Map<CellAddress, CellV>,
    cells2: Map<CellAddress, CellV>,
    funs: Map<Seq<char>, Function>,
)
    requires
        forall|a: CellAddress| #[trigger] e.deps().contains(a) ==> (cells1.contains_key(a)
            == cells2.contains_key(a) && (cells1.contains_key(a) ==> cells1[a].value
            == cells2[a].value)),
    ensures
        spec_eval(e, cells1, funs) == spec_eval(e, cells2, funs),
    decreases e,
{
    match e {
        ExprV::Literal(_) => {},
        ExprV::Reference(a) => {
            assert(e.deps().contains(a)) by {
                assert(e.deps()[0] == a);
            }
        },
        ExprV::Call { name, args } => {
            lemma_deps_of_args(args);
            assert forall|i: int, a: CellAddress| #![trigger args[i].deps().contains(a)]
                0 <= i < args.len() && args[i].deps().contains(a) implies (cells1.contains_key(
                a,
            ) == cells2.contains_key(a) && (cells1.contains_key(a) ==> cells1[a].value
                == cells2[a].value)) by {
                assert(ExprV::deps_of_args(args).contains(a));
                assert(e.deps().contains(a));
            }
            lemma_eval_args_frame(args, cells1, cells2, funs);
        },
    }
}

// --- sequence edits and their effect on the views ---

/// Replacing an entry by one with the same address updates the map there.
pub proof fn lemma_cells_map_update(s: Seq<(CellAddress, Cell)>, i: int, p: (CellAddress, Cell))
    requires
        cells_unique(s),
        0 <= i < s.len(),
        s[i].0 == p.0,
    ensures
        cells_map_of(s.update(i, p)) == cells_map_of(s).insert(p.0, p.1@),
        cells_unique(s.update(i, p)),
    decreases s.len(),
{
    let t = s.update(i, p);
    assert forall|x: int, y: int| 0 <= x < y < t.len() implies (#[trigger] t[x]).0 != (
    #[trigger] t[y]).0 by {
        assert(s[x].0 != s[y].0);
    }
    if i == s.len() - 1 {
        assert(t.drop_last() =~= s.drop_last());
        assert(cells_map_of(t) =~= cells_map_of(s).insert(p.0, p.1@));
    } else {
        assert(t.drop_last() =~= s.drop_last().update(i, p));
        assert(s.drop_last()[i] == s[i]);
        lemma_cells_map_update(s.drop_last(), i, p);
        assert(s[s.len() - 1].0 != s[i].0);
        assert(cells_map_of(t) =~= cells_map_of(s).insert(p.0, p.1@));
    }
}

/// Removing an entry removes its address from the map.
pub proof fn lemma_cells_map_remove(s: Seq<(CellAddress, Cell)>, i: int)
    requires
        cells_unique(s),
        0 <= i < s.len(),
    ensures
        cells_map_of(s.remove(i)) == cells_map_of(s).remove(s[i].0),
        cells_unique(s.remove(i)),
    decreases s.len(),
{
    let t = s.remove(i);
    assert forall|x: int, y: int| 0 <= x < y < t.len() implies (#[trigger] t[x]).0 != (
    #[trigger] t[y]).0 by {
        let sx: int = if x < i {
            x
        } else {
            x + 1
        };
        let sy: int = if y < i {
            y
        } else {
            y + 1
        };
        assert(t[x] == s[sx]);
        assert(t[y] == s[sy]);
        assert(s[sx].0 != s[sy].0);
    }
    if i == s.len() - 1 {
        assert(t =~= s.drop_last());
        lemma_cells_map(s.drop_last());
        assert forall|j: int| 0 <= j < s.len() - 1 implies (#[trigger] s.drop_last()[j]).0
            != s[i].0 by {
            assert(s[j].0 != s[i].0);
        }
        assert(!cells_map_of(s.drop_last()).contains_key(s[i].0));
        assert(cells_map_of(t) =~= cells_map_of(s).remove(s[i].0));
    } else {
        assert(t.drop_last() =~= s.drop_last().remove(i));
        assert(s.drop_last()[i] == s[i]);
        lemma_cells_map_remove(s.drop_last(), i);
        assert(t.last() == s.last());
        assert(s[s.len() - 1].0 != s[i].0);
        assert(cells_map_of(t) =~= cells_map_of(s).remove(s[i].0));
    }
}

/// Appending an entry with a fresh address inserts it into the map.
pub proof fn lemma_cells_map_push(s: Seq<(CellAddress, Cell)>, p: (CellAddress, Cell))
    requires
        cells_unique(s),
        forall|i: int| 0 <= i < s.len() ==> (#[trigger] s[i]).0 != p.0,
    ensures
        cells_map_of(s.push(p)) == cells_map_of(s).insert(p.0, p.1@),
        cells_unique(s.push(p)),
{
    assert(s.push(p).drop_last() =~= s);
    assert(s.push(p).last() == p);
    assert forall|x: int, y: int| 0 <= x < y < s.push(p).len() implies (#[trigger] s.push(
        p,
    )[x]).0 != (#[trigger] s.push(p)[y]).0 by {
        if y < s.len() {
            assert(s[x].0 != s[y].0);
        } else {
            assert(s[x].0 != p.0);
        }
    }
}

/// Replacing an entry by one with the same name updates the function map.
pub proof fn lemma_funs_map_update(s: Seq<(String, Function)>, i: int, p: (String, Function))
    requires
        funs_unique(s),
        0 <= i < s.len(),
        s[i].0@ == p.0@,
    ensures
        funs_map_of(s.update(i, p)) == funs_map_of(s).insert(p.0@, p.1),
        funs_unique(s.update(i, p)),
    decreases s.len(),
{
    let t = s.update(i, p);
    assert forall|x: int, y: int| 0 <= x < y < t.len() implies (#[trigger] t[x]).0@ != (
    #[trigger] t[y]).0@ by {
        assert(s[x].0@ != s[y].0@);
    }
    if i == s.len() - 1 {
        assert(t.drop_last() =~= s.drop_last());
        assert(funs_map_of(t) =~= funs_map_of(s).insert(p.0@, p.1));
    } else {
        assert(t.drop_last() =~= s.drop_last().update(i, p));
        assert(s.drop_last()[i] == s[i]);
        lemma_funs_map_update(s.drop_last(), i, p);
        assert(s[s.len() - 1].0@ != s[i].0@);
        assert(funs_map_of(t) =~= funs_map_of(s).insert(p.0@, p.1));
    }
}

/// Appending an entry with a fresh name inserts it into the function map.
pub proof fn lemma_funs_map_push(s: Seq<(String, Function)>, p: (String, Function))
    requires
        funs_unique(s),
        forall|i: int| 0 <= i < s.len() ==> (#[trigger] s[i]).0@ != p.0@,
    ensures
        funs_map_of(s.push(p)) == funs_map_of(s).insert(p.0@, p.1),
        funs_unique(s.push(p)),
{
    assert(s.push(p).drop_last() =~= s);
    assert(s.push(p).last() == p);
    assert forall|x: int, y: int| 0 <= x < y < s.push(p).len() implies (#[trigger] s.push(
        p,
    )[x]).0@ != (#[trigger] s.push(p)[y]).0@ by {
        if y < s.len() {
            assert(s[x].0@ != s[y].0@);
        } else {
            assert(s[x].0@ != p.0@);
        }
    }
}

/// Frame rule for argument lists.
pub proof fn lemma_eval_args_frame(
    args: Seq<ExprV>,
    cells1: Map<CellAddress, CellV>,
    cells2: Map<CellAddress, CellV>,
    funs: Map<Seq<char>, Function>,
)
    requires
        forall|i: int, a: CellAddress| #![trigger args[i].deps().contains(a)]
            0 <= i < args.len() && args[i].deps().contains(a) ==> (cells1.contains_key(a)
            == cells2.contains_key(a) && (cells1.contains_key(a) ==> cells1[a].value
            == cells2[a].value)),
    ensures
        spec_eval_args(args, cells1, funs) == spec_eval_args(args, cells2, funs),
    decreases args,
{
    if args.len() > 0 {
        lemma_eval_args_frame(args.drop_last(), cells1, cells2, funs);
        assert forall|i: int, a: CellAddress| #![trigger args.drop_last()[i].deps().contains(a)]
            0 <= i < args.drop_last().len() && args.drop_last()[i].deps().contains(a)
            implies (cells1.contains_key(a) == cells2.contains_key(a) && (
        cells1.contains_key(a) ==> cells1[a].value == cells2[a].value)) by {
            assert(args[i].deps().contains(a));
        }
        assert(args[args.len() - 1].deps() == args.last().deps());
        lemma_eval_frame(args.last(), cells1, cells2, funs);
    }
}

// --- reachability in the dependency graph ---

/// A walk along edges: at least one node, consecutive nodes joined by edges.
pub open spec fn is_path(
    edges: Set<(CellAddress, CellAddress)>,
    p: Seq<CellAddress>,
) -> bool {
    p.len() >= 1 && forall|k: int| #![trigger p.index(k)]
        0 <= k < p.len() - 1 ==> edges.contains((p[k], p[k + 1]))
}

/// `dst` can be reached from `src` along edges; every node reaches itself.
pub open spec fn reaches(
    edges: Set<(CellAddress, CellAddress)>,
    src: CellAddress,
    dst: CellAddress,
) -> bool {
    exists|p: Seq<CellAddress>| is_path(edges, p) && p.first() == src && p.last() == dst
}

/// Every node reaches itself.
pub proof fn lemma_reaches_self(edges: Set<(CellAddress, CellAddress)>, a: CellAddress)
    ensures
        reaches(edges, a, a),
{
    let p = seq![a];
    assert(is_path(edges, p) && p.first() == a && p.last() == a);
}

/// Reachability extends along an edge.
pub proof fn lemma_reaches_step(
    edges: Set<(CellAddress, CellAddress)>,
    src: CellAddress,
    x: CellAddress,
    y: CellAddress,
)
    requires
        reaches(edges, src, x),
        edges.contains((x, y)),
    ensures
        reaches(edges, src, y),
{
    let p = choose|p: Seq<CellAddress>| is_path(edges, p) && p.first() == src && p.last() == x;
    let q = p.push(y);
    assert forall|k: int| #![trigger q.index(k)] 0 <= k < q.len() - 1 implies edges.contains(
        (q[k], q[k + 1]),
    ) by {
        if k < p.len() - 1 {
            assert(q[k] == p[k] && q[k + 1] == p[k + 1]);
        } else {
            assert(q[k] == x && q[k + 1] == y);
        }
    }
    assert(is_path(edges, q) && q.first() == src && q.last() == y);
}

/// A path starting inside a successor-closed collection ends inside it.
pub proof fn lemma_path_stays(
    edges: Set<(CellAddress, CellAddress)>,
    members: Seq<CellAddress>,
    p: Seq<CellAddress>,
)
    requires
        is_path(edges, p),
        members.contains(p.first()),
        forall|x: CellAddress, y: CellAddress|
            members.contains(x) && #[trigger] edges.contains((x, y)) ==> members.contains(y),
    ensures
        members.contains(p.last()),
    decreases p.len(),
{
    if p.len() > 1 {
        let q = p.drop_last();
        assert forall|k: int| #![trigger q.index(k)] 0 <= k < q.len() - 1 implies edges.contains(
            (q[k], q[k + 1]),
        ) by {
            assert(q[k] == p[k] && q[k + 1] == p[k + 1]);
        }
        assert(q.first() == p.first());
        lemma_path_stays(edges, members, q);
        assert(q.last() == p[p.len() - 2]);
        assert(edges.contains((p[p.len() - 2], p.last())));
    }
}

/// A successor-closed collection holding `src` holds everything `src`
/// reaches.
pub proof fn lemma_closed_covers(
    edges: Set<(CellAddress, CellAddress)>,
    src: CellAddress,
    members: Seq<CellAddress>,
)
    requires
        members.contains(src),
        forall|x: CellAddress, y: CellAddress|
            members.contains(x) && #[trigger] edges.contains((x, y)) ==> members.contains(y),
    ensures
        forall|d: CellAddress| #[trigger] reaches(edges, src, d) ==> members.contains(d),
{
    assert forall|d: CellAddress| #[trigger] reaches(edges, src, d) implies members.contains(
        d,
    ) by {
        let p = choose|p: Seq<CellAddress>| is_path(edges, p) && p.first() == src && p.last()
            == d;
        lemma_path_stays(edges, members, p);
    }
}

/// Whether the vector holds the address.
fn vec_contains_addr(v: &Vec<CellAddress>, a: &CellAddress) -> (r: bool)
    ensures
        r == v@.contains(*a),
{
    let mut i: usize = 0;
    while i < v.len()
        invariant
            i <= v@.len(),
            forall|j: int| 0 <= j < i ==> v@[j] != *a,
        decreases v@.len() - i,
    {
        if v[i] == *a {
            return true;
        }
        i = i + 1;
    }
    false
}

/// A sequence of distinct addresses that all occur as edge targets, with one
/// extra head element, is no longer than the edge list plus one.
proof fn lemma_visited_bound(
    visited: Seq<CellAddress>,
    edges: Seq<(CellAddress, CellAddress)>,
)
    requires
        visited.no_duplicates(),
        forall|k: int| 1 <= k < visited.len() ==> exists|j: int|
            0 <= j < edges.len() && (#[trigger] edges[j]).1 == #[trigger] visited[k],
    ensures
        visited.len() <= edges.len() + 1,
{
    if visited.len() >= 2 {
        let t = visited.drop_first();
        let targets = edges.map_values(|e: (CellAddress, CellAddress)| e.1);
        assert(t.no_duplicates()) by {
            assert forall|x: int, y: int| 0 <= x < y < t.len() implies t[x] != t[y] by {
                assert(visited[x + 1] != visited[y + 1]);
            }
        }
        assert(t.to_set().subset_of(targets.to_set())) by {
            assert forall|a: CellAddress| t.to_set().contains(a) implies targets.to_set()
                .contains(a) by {
                let k = choose|k: int| 0 <= k < t.len() && t[k] == a;
                assert(visited[k + 1] == a);
                let j = choose|j: int| 0 <= j < edges.len() && (#[trigger] edges[j]).1 == a;
                assert(targets[j] == a);
                assert(targets.contains(a));
            }
        }
        t.unique_seq_to_set();
        targets.lemma_cardinality_of_set();
        vstd::set_lib::lemma_len_subset(t.to_set(), targets.to_set());
    }
}

/// The addresses reachable from `src` along the edges, `src` included.
#[verifier::rlimit(100)]
fn reachable_from(
    edges: &Vec<(CellAddress, CellAddress)>,
    src: CellAddress,
) -> (r: Vec<CellAddress>)
    ensures
        r@.no_duplicates(),
        r@.contains(src),
        forall|k: int| 0 <= k < r@.len() ==> reaches(edge_set_of(edges@), src, #[trigger] r@[k]),
        forall|x: CellAddress, y: CellAddress|
            r@.contains(x) && #[trigger] edge_set_of(edges@).contains((x, y)) ==> r@.contains(y),
        forall|d: CellAddress| #[trigger]
            reaches(edge_set_of(edges@), src, d) ==> r@.contains(d),
{
    let ghost es = edge_set_of(edges@);
    proof {
        lemma_edge_set(edges@);
        lemma_reaches_self(es, src);
    }
    let mut visited: Vec<CellAddress> = Vec::new();
    visited.push(src);
    let mut queue: Vec<CellAddress> = Vec::new();
    queue.push(src);
    proof {
        assert(visited@ =~= seq![src]);
        assert(visited@[0] == src);
        lemma_visited_bound(visited@, edges@);
    }
    while queue.len() > 0
        invariant
            es == edge_set_of(edges@),
            visited@.no_duplicates(),
            visited@.len() >= 1 && visited@[0] == src,
            visited@.contains(src),
            forall|k: int| 1 <= k < visited@.len() ==> exists|j: int|
                0 <= j < edges@.len() && (#[trigger] edges@[j]).1 == #[trigger] visited@[k],
            visited@.len() <= edges@.len() + 1,
            forall|k: int| 0 <= k < queue@.len() ==> visited@.contains(#[trigger] queue@[k]),
            forall|k: int| 0 <= k < visited@.len() ==> reaches(es, src, #[trigger] visited@[k]),
            forall|x: CellAddress, y: CellAddress|
                visited@.contains(x) && !queue@.contains(x) && #[trigger] es.contains((x, y))
                    ==> visited@.contains(y),
        decreases edges@.len() + 1 - visited@.len(), queue@.len(),
    {
        let ghost visited_before = visited@;
        let x = queue.pop().unwrap();
        let ghost qlen0 = queue@.len();
        let mut j: usize = 0;
        while j < edges.len()
            invariant
                es == edge_set_of(edges@),
                visited@.no_duplicates(),
                visited@.len() >= 1 && visited@[0] == src,
                visited@.contains(src),
                visited@.contains(x),
                forall|k: int| 1 <= k < visited@.len() ==> exists|jj: int|
                    0 <= jj < edges@.len() && (#[trigger] edges@[jj]).1 == #[trigger] visited@[k],
                visited@.len() <= edges@.len() + 1,
                forall|k: int| 0 <= k < queue@.len() ==> visited@.contains(#[trigger] queue@[k]),
                forall|k: int| 0 <= k < visited@.len() ==> reaches(es, src, #[trigger] visited@[k]),
                forall|xx: CellAddress, y: CellAddress|
                    visited@.contains(xx) && !queue@.contains(xx) && xx != x && #[trigger]
                        es.contains((xx, y)) ==> visited@.contains(y),
                forall|jj: int| 0 <= jj < j && (#[trigger] edges@[jj]).0 == x
                    ==> visited@.contains(edges@[jj].1),
                visited@.len() >= visited_before.len(),
                queue@.len() == qlen0 + visited@.len() - visited_before.len(),
            decreases edges@.len() - j,
        {
            let e = (edges[j].0, edges[j].1);
            if e.0 == x && !vec_contains_addr(&visited, &e.1) {
                proof {
                    lemma_edge_set(edges@);
                    assert(edges@[j as int] == e);
                    assert(es.contains(e));
                    lemma_reaches_step(es, src, x, e.1);
                }
                let ghost vb = visited@;
                visited.push(e.1);
                queue.push(e.1);
                proof {
                    assert forall|k: int| 1 <= k < visited@.len() implies exists|jj: int|
                        0 <= jj < edges@.len() && (#[trigger] edges@[jj]).1 == #[trigger] visited@[k] by {
                        if k == visited@.len() - 1 {
                            assert(edges@[j as int].1 == visited@[k]);
                        } else {
                            assert(vb[k] == visited@[k]);
                        }
                    }
                    lemma_visited_bound(visited@, edges@);
                    assert forall|k: int| 0 <= k < visited@.len() implies reaches(
                        es,
                        src,
                        #[trigger] visited@[k],
                    ) by {
                        if k < vb.len() {
                            assert(visited@[k] == vb[k]);
                        }
                    }
                }
            }
            j = j + 1;
        }
        proof {
            lemma_edge_set(edges@);
            assert forall|xx: CellAddress, y: CellAddress|
                visited@.contains(xx) && !queue@.contains(xx) && #[trigger] es.contains(
                    (xx, y),
                ) implies visited@.contains(y) by {
                if xx == x {
                    let jj = choose|jj: int| 0 <= jj < edges@.len() && (#[trigger] edges@[jj])
                        == (xx, y);
                    assert(edges@[jj].0 == x);
                }
            }
        }
    }
    proof {
        assert forall|x: CellAddress, y: CellAddress|
            visited@.contains(x) && #[trigger] es.contains((x, y)) implies visited@.contains(
            y,
        ) by {
            assert(!queue@.contains(x));
        }
        lemma_closed_covers(es, src, visited@);
    }
    visited
}

/// Distinct elements drawn from another sequence are no more numerous.
proof fn lemma_distinct_in_bound(sub: Seq<CellAddress>, sup: Seq<CellAddress>)
    requires
        sub.no_duplicates(),
        forall|k: int| 0 <= k < sub.len() ==> sup.contains(#[trigger] sub[k]),
    ensures
        sub.len() <= sup.len(),
{
    assert(sub.to_set().subset_of(sup.to_set())) by {
        assert forall|a: CellAddress| sub.to_set().contains(a) implies sup.to_set().contains(
            a,
        ) by {
            let k = choose|k: int| 0 <= k < sub.len() && sub[k] == a;
            assert(sup.contains(sub[k]));
        }
    }
    sub.unique_seq_to_set();
    sup.lemma_cardinality_of_set();
    vstd::set_lib::lemma_len_subset(sub.to_set(), sup.to_set());
}

/// Reachability composes.
#[verifier::rlimit(100)]
pub proof fn lemma_reaches_trans(
    edges: Set<(CellAddress, CellAddress)>,
    a: CellAddress,
    b: CellAddress,
    c: CellAddress,
)
    requires
        reaches(edges, a, b),
        reaches(edges, b, c),
    ensures
        reaches(edges, a, c),
{
    let p = choose|p: Seq<CellAddress>| is_path(edges, p) && p.first() == a && p.last() == b;
    let q = choose|q: Seq<CellAddress>| is_path(edges, q) && q.first() == b && q.last() == c;
    let w = p + q.drop_first();
    if q.len() == 1 {
        assert(w =~= p);
    } else {
        assert forall|k: int| #![trigger w.index(k)] 0 <= k < w.len() - 1 implies edges.contains(
            (w[k], w[k + 1]),
        ) by {
            if k < p.len() - 1 {
                assert(w[k] == p[k] && w[k + 1] == p[k + 1]);
            } else if k == p.len() - 1 {
                assert(w[k] == b && w[k + 1] == q[1]);
                assert(edges.contains((q[0], q[1])));
            } else {
                let m = k - p.len();
                assert(w[k] == q[m + 1] && w[k + 1] == q[m + 2]);
                assert(edges.contains((q[m + 1], q[m + 2])));
            }
        }
        assert(w.first() == a && w.last() == c);
        assert(is_path(edges, w));
    }
}

/// A path's start reaches each of its nodes.
proof fn lemma_path_reaches_nodes(edges: Set<(CellAddress, CellAddress)>, p: Seq<CellAddress>)
    requires
        is_path(edges, p),
    ensures
        forall|m: int| 0 <= m < p.len() ==> reaches(edges, p.first(), #[trigger] p[m]),
{
    assert forall|m: int| 0 <= m < p.len() implies reaches(edges, p.first(), #[trigger] p[m]) by {
        let q = p.take(m + 1);
        assert forall|k: int| #![trigger q.index(k)] 0 <= k < q.len() - 1 implies edges.contains(
            (q[k], q[k + 1]),
        ) by {
            assert(q[k] == p[k] && q[k + 1] == p[k + 1]);
        }
        assert(is_path(edges, q) && q.first() == p.first() && q.last() == p[m]);
    }
}

/// No node of a cycle is recomputed in the main phase: its predecessor on
/// the cycle would have to come even earlier, without end.
proof fn lemma_cycle_unprocessed(
    es: Set<(CellAddress, CellAddress)>,
    reach: Seq<CellAddress>,
    maina: Seq<CellAddress>,
    procidx: Map<CellAddress, int>,
    q: Seq<CellAddress>,
    n: int,
)
    requires
        q.len() >= 2,
        is_path(es, q),
        q.first() == q.last(),
        forall|m: int| 0 <= m < q.len() ==> reach.contains(#[trigger] q[m]),
        forall|a: CellAddress| #[trigger] maina.contains(a) ==> procidx[a] >= 0,
        forall|p: CellAddress, x: CellAddress| #[trigger] maina.contains(p) && #[trigger]
            es.contains((x, p)) && reach.contains(x) ==> maina.contains(x) && procidx[x]
            < procidx[p],
        n >= -1,
    ensures
        forall|m: int| 0 <= m < q.len() && maina.contains(#[trigger] q[m]) ==> procidx[q[m]] > n,
    decreases n + 1,
{
    if n >= 0 {
        lemma_cycle_unprocessed(es, reach, maina, procidx, q, n - 1);
        assert forall|m: int| 0 <= m < q.len() && maina.contains(#[trigger] q[m])
            implies procidx[q[m]] > n by {
            let prev: int = if m == 0 {
                q.len() - 2
            } else {
                m - 1
            };
            assert(es.contains((q[prev], q[prev + 1])));
            if m == 0 {
                assert(q[prev + 1] == q.last());
                assert(es.contains((q[prev], q[m])));
            }
            assert(reach.contains(q[prev]));
            assert(maina.contains(q[prev]) && procidx[q[prev]] < procidx[q[m]]);
            assert(procidx[q[prev]] > n - 1);
        }
    }
}

/// A cycle sits at or upstream of `a`: some cell `c` reaches `a`, and an
/// edge from `d` into `c` is closed by a path from `c` back to `d`.
pub open spec fn behind_cycle(es: Set<(CellAddress, CellAddress)>, a: CellAddress) -> bool {
    exists|c: CellAddress, d: CellAddress| #![trigger es.contains((d, c))]
        reaches(es, c, a) && es.contains((d, c)) && reaches(es, c, d)
}

/// A chain of dependencies leading into `a`, all reachable and none
/// recomputed in the main phase, of any requested length.
proof fn lemma_find_pred_chain(
    es: Set<(CellAddress, CellAddress)>,
    reach: Seq<CellAddress>,
    maina: Seq<CellAddress>,
    a: CellAddress,
    n: nat,
) -> (w: Seq<CellAddress>)
    requires
        reach.contains(a),
        !maina.contains(a),
        forall|m: CellAddress| reach.contains(m) && !maina.contains(m) ==> exists|
            x: CellAddress,
        | #[trigger] es.contains((x, m)) && reach.contains(x) && !maina.contains(x),
    ensures
        w.len() == n + 1,
        w[0] == a,
        forall|i: int| 0 <= i < w.len() ==> reach.contains(#[trigger] w[i]) && !maina.contains(
            w[i],
        ),
        forall|i: int| 0 <= i < w.len() - 1 ==> es.contains(((#[trigger] w[i + 1]), w[i])),
    decreases n,
{
    if n == 0 {
        let w = seq![a];
        assert(w[0] == a);
        w
    } else {
        let prev = lemma_find_pred_chain(es, reach, maina, a, (n - 1) as nat);
        let last = prev.last();
        let x = choose|x: CellAddress| #[trigger]
            es.contains((x, last)) && reach.contains(x) && !maina.contains(x);
        let w = prev.push(x);
        assert forall|i: int| 0 <= i < w.len() - 1 implies es.contains(
            ((#[trigger] w[i + 1]), w[i]),
        ) by {
            if i < prev.len() - 1 {
                assert(w[i] == prev[i] && w[i + 1] == prev[i + 1]);
            } else {
                assert(w[i] == last && w[i + 1] == x);
            }
        }
        w
    }
}

/// The reversed stretch of a dependency chain is a walk along the edges.
#[verifier::spinoff_prover]
#[verifier::rlimit(100)]
proof fn lemma_rev_chain_path(
    es: Set<(CellAddress, CellAddress)>,
    w: Seq<CellAddress>,
    lo: int,
    hi: int,
)
    requires
        0 <= lo <= hi < w.len(),
        forall|i: int| 0 <= i < w.len() - 1 ==> es.contains(((#[trigger] w[i + 1]), w[i])),
    ensures
        is_path(es, crate::text::rev_seq(w.subrange(lo, hi + 1))),
        crate::text::rev_seq(w.subrange(lo, hi + 1)).first() == w[hi],
        crate::text::rev_seq(w.subrange(lo, hi + 1)).last() == w[lo],
{
    let sub = w.subrange(lo, hi + 1);
    let p = crate::text::rev_seq(sub);
    crate::text::lemma_rev_index(sub);
    assert forall|k: int| #![trigger p.index(k)] 0 <= k < p.len() - 1 implies es.contains(
        (p[k], p[k + 1]),
    ) by {
        assert(p[k] == sub[sub.len() - 1 - k]);
        assert(p[k + 1] == sub[sub.len() - 2 - k]);
        assert(sub[sub.len() - 1 - k] == w[hi - k]);
        assert(sub[sub.len() - 2 - k] == w[hi - k - 1]);
        assert(es.contains((w[(hi - k - 1) + 1], w[hi - k - 1])));
        assert(es.contains((w[hi - k], w[hi - k - 1])));
    }
    assert(p[0] == sub[sub.len() - 1]);
    assert(p[p.len() - 1] == sub[0]);
}

/// A reachable cell left over by the main phase sits behind a cycle: its
/// unrecomputed dependencies chain back until one repeats.
proof fn lemma_leftover_behind_cycle(
    es: Set<(CellAddress, CellAddress)>,
    reach: Seq<CellAddress>,
    maina: Seq<CellAddress>,
    a: CellAddress,
)
    requires
        reach.contains(a),
        !maina.contains(a),
        forall|m: CellAddress| reach.contains(m) && !maina.contains(m) ==> exists|
            x: CellAddress,
        | #[trigger] es.contains((x, m)) && reach.contains(x) && !maina.contains(x),
    ensures
        behind_cycle(es, a),
{
    let n = reach.len() + 1;
    let w = lemma_find_pred_chain(es, reach, maina, a, n);
    if w.no_duplicates() {
        lemma_distinct_in_bound(w, reach);
        assert(false);
    }
    let (x, y) = choose|x: int, y: int|
        0 <= x < w.len() && 0 <= y < w.len() && x != y && #[trigger] w[x] == #[trigger] w[y];
    let i = if x < y { x } else { y };
    let j = if x < y { y } else { x };
    let c = w[j];
    let d = w[i + 1];
    assert(w[i] == c);
    assert(es.contains((d, w[i])));
    // the stretch from j down to i + 1 closes the cycle: c reaches d
    lemma_rev_chain_path(es, w, i + 1, j);
    if i + 1 == j {
        lemma_reaches_self(es, c);
        assert(c == d);
    } else {
        assert(reaches(es, c, d));
    }
    // the stretch from i down to 0 leads from c to a
    lemma_rev_chain_path(es, w, 0, i);
    assert(reaches(es, c, a));
    assert(behind_cycle(es, a));
}

/// The position of the last occurrence of `x` in `p`.
proof fn lemma_last_occurrence(p: Seq<CellAddress>, x: CellAddress) -> (i: int)
    requires
        p.contains(x),
    ensures
        0 <= i < p.len(),
        p[i] == x,
        forall|k: int| i < k < p.len() ==> p[k] != x,
    decreases p.len(),
{
    if p.last() == x {
        p.len() - 1
    } else {
        assert(p.drop_last().contains(x)) by {
            let k = choose|k: int| 0 <= k < p.len() && p[k] == x;
            assert(p.drop_last()[k] == x);
        }
        let i = lemma_last_occurrence(p.drop_last(), x);
        assert(p[i] == p.drop_last()[i]);
        assert forall|k: int| i < k < p.len() implies p[k] != x by {
            if k < p.len() - 1 {
                assert(p[k] == p.drop_last()[k]);
            }
        }
        i
    }
}

/// A walk whose nodes after the first avoid `address` uses no edge into
/// `address`, so it survives the rewiring of `address`'s dependencies.
proof fn lemma_path_survives(
    old_es: Set<(CellAddress, CellAddress)>,
    new_es: Set<(CellAddress, CellAddress)>,
    address: CellAddress,
    p: Seq<CellAddress>,
)
    requires
        is_path(old_es, p),
        forall|e: (CellAddress, CellAddress)| #[trigger]
            old_es.contains(e) && e.1 != address ==> new_es.contains(e),
        forall|k: int| 1 <= k < p.len() ==> p[k] != address,
    ensures
        is_path(new_es, p),
{
    assert forall|k: int| #![trigger p.index(k)] 0 <= k < p.len() - 1 implies new_es.contains(
        (p[k], p[k + 1]),
    ) by {
        assert(old_es.contains((p[k], p[k + 1])));
        assert(p[k + 1] != address);
    }
}

/// A walk that visits the edited address still leads from it to the
/// walk's end after the rewiring, by its tail from the last visit on.
#[verifier::spinoff_prover]
#[verifier::rlimit(100)]
proof fn lemma_tail_reaches(
    old_es: Set<(CellAddress, CellAddress)>,
    new_es: Set<(CellAddress, CellAddress)>,
    address: CellAddress,
    p: Seq<CellAddress>,
)
    requires
        is_path(old_es, p),
        forall|e: (CellAddress, CellAddress)| #[trigger]
            old_es.contains(e) && e.1 != address ==> new_es.contains(e),
        p.contains(address),
    ensures
        reaches(new_es, address, p.last()),
{
    let i = lemma_last_occurrence(p, address);
    let t = p.subrange(i, p.len() as int);
    assert forall|k: int| #![trigger t.index(k)] 0 <= k < t.len() - 1 implies old_es.contains(
        (t[k], t[k + 1]),
    ) by {
        assert(t[k] == p[i + k] && t[k + 1] == p[i + k + 1]);
    }
    assert(is_path(old_es, t));
    assert forall|k: int| 1 <= k < t.len() implies t[k] != address by {
        assert(t[k] == p[i + k]);
    }
    lemma_path_survives(old_es, new_es, address, t);
    assert(t.first() == address && t.last() == p.last());
}

/// Closes an edge `(d, c)` with a path from `c` to `d` into a walk from
/// `c` back to itself whose next-to-last node is `d`.
#[verifier::spinoff_prover]
#[verifier::rlimit(100)]
proof fn lemma_close_cycle(
    es: Set<(CellAddress, CellAddress)>,
    c: CellAddress,
    d: CellAddress,
) -> (z: Seq<CellAddress>)
    requires
        es.contains((d, c)),
        reaches(es, c, d),
    ensures
        is_path(es, z),
        z.len() >= 2,
        z.first() == c,
        z.last() == c,
        z[z.len() - 2] == d,
{
    let q = choose|q: Seq<CellAddress>| is_path(es, q) && q.first() == c && q.last() == d;
    let z = q.push(c);
    assert forall|k: int| #![trigger z.index(k)] 0 <= k < z.len() - 1 implies es.contains(
        (z[k], z[k + 1]),
    ) by {
        if k < q.len() - 1 {
            assert(z[k] == q[k] && z[k + 1] == q[k + 1]);
        } else {
            assert(z[k] == d && z[k + 1] == c);
        }
    }
    assert(z[z.len() - 2] == q.last());
    z
}

/// A cell that sat behind a cycle and is not reachable from the edited
/// address still sits behind a cycle after the rewiring: a cycle or feed
/// line through the edited address would make the cell reachable from it.
#[verifier::spinoff_prover]
#[verifier::rlimit(100)]
proof fn lemma_behind_cycle_survives(
    old_es: Set<(CellAddress, CellAddress)>,
    new_es: Set<(CellAddress, CellAddress)>,
    address: CellAddress,
    a: CellAddress,
)
    requires
        behind_cycle(old_es, a),
        forall|e: (CellAddress, CellAddress)| #[trigger]
            old_es.contains(e) && e.1 != address ==> new_es.contains(e),
        !reaches(new_es, address, a),
    ensures
        behind_cycle(new_es, a),
{
    let (c, d) = choose|c: CellAddress, d: CellAddress| #![trigger old_es.contains((d, c))]
        reaches(old_es, c, a) && old_es.contains((d, c)) && reaches(old_es, c, d);
    let p = choose|p: Seq<CellAddress>| is_path(old_es, p) && p.first() == c && p.last() == a;
    let z = lemma_close_cycle(old_es, c, d);
    if p.contains(address) {
        lemma_tail_reaches(old_es, new_es, address, p);
        assert(false);
    } else if z.contains(address) {
        lemma_tail_reaches(old_es, new_es, address, z);
        assert forall|k: int| 1 <= k < p.len() implies p[k] != address by {}
        lemma_path_survives(old_es, new_es, address, p);
        assert(reaches(new_es, c, a));
        lemma_reaches_trans(new_es, address, c, a);
        assert(false);
    } else {
        assert forall|k: int| 1 <= k < p.len() implies p[k] != address by {}
        lemma_path_survives(old_es, new_es, address, p);
        assert forall|k: int| 1 <= k < z.len() implies z[k] != address by {}
        lemma_path_survives(old_es, new_es, address, z);
        let q = z.take(z.len() - 1);
        assert forall|k: int| #![trigger q.index(k)] 0 <= k < q.len() - 1 implies new_es.contains(
            (q[k], q[k + 1]),
        ) by {
            assert(q[k] == z[k] && q[k + 1] == z[k + 1]);
            assert(new_es.contains((z[k], z[k + 1])));
        }
        assert(is_path(new_es, q));
        assert(q.first() == c && q.last() == d);
        assert(new_es.contains((d, c))) by {
            assert(c != address) by {
                assert(p[0] == c);
            }
        }
        assert(reaches(new_es, c, a) && reaches(new_es, c, d));
        assert(behind_cycle(new_es, a));
    }
}

/// Removes every edge that points at `address`.
fn remove_in_edges(edges: &mut Vec<(CellAddress, CellAddress)>, address: &CellAddress)
    ensures
        forall|e: (CellAddress, CellAddress)| #[trigger]
            edge_set_of(final(edges)@).contains(e) <==> (edge_set_of(old(edges)@).contains(e)
                && e.1 != *address),
{
    let mut out: Vec<(CellAddress, CellAddress)> = Vec::new();
    let mut i: usize = 0;
    while i < edges.len()
        invariant
            i <= edges@.len(),
            forall|k: int| 0 <= k < out@.len() ==> (#[trigger] out@[k]).1 != *address,
            forall|k: int| 0 <= k < out@.len() ==> exists|j: int|
                0 <= j < i && edges@[j] == #[trigger] out@[k],
            forall|j: int| 0 <= j < i && (#[trigger] edges@[j]).1 != *address ==> exists|k: int|
                0 <= k < out@.len() && out@[k] == edges@[j],
        decreases edges@.len() - i,
    {
        let ghost ob = out@;
        if !(edges[i].1 == *address) {
            out.push((edges[i].0, edges[i].1));
        }
        i = i + 1;
        proof {
            assert forall|j: int| 0 <= j < i && (#[trigger] edges@[j]).1 != *address
                implies exists|k: int| 0 <= k < out@.len() && out@[k] == edges@[j] by {
                if j == i - 1 {
                    assert(out@[out@.len() - 1] == edges@[j]);
                } else {
                    let k = choose|k: int| 0 <= k < ob.len() && ob[k] == edges@[j];
                    assert(out@[k] == edges@[j]);
                }
            }
        }
    }
    proof {
        lemma_edge_set(out@);
        lemma_edge_set(edges@);
    }
    *edges = out;
}

/// Adds an edge from each dependency to `address`.
fn push_edges(
    edges: &mut Vec<(CellAddress, CellAddress)>,
    deps: &Vec<CellAddress>,
    address: &CellAddress,
)
    ensures
        forall|e: (CellAddress, CellAddress)| #[trigger]
            edge_set_of(final(edges)@).contains(e) <==> (edge_set_of(old(edges)@).contains(e)
                || (exists|k: int| 0 <= k < deps@.len() && e == ((#[trigger] deps@[k]),
            *address))),
{
    let mut i: usize = 0;
    while i < deps.len()
        invariant
            i <= deps@.len(),
            forall|e: (CellAddress, CellAddress)| #[trigger]
                edge_set_of(edges@).contains(e) <==> (edge_set_of(old(edges)@).contains(e) || (
                exists|k: int| 0 <= k < i && e == ((#[trigger] deps@[k]), *address))),
        decreases deps@.len() - i,
    {
        let ghost before = edges@;
        edges.push((deps[i], *address));
        i = i + 1;
        proof {
            assert(edges@.drop_last() =~= before);
            assert(edges@.last() == (deps@[i - 1], *address));
            assert(edge_set_of(edges@) == edge_set_of(before).insert((deps@[i - 1], *address)));
            assert forall|e: (CellAddress, CellAddress)| #[trigger]
                edge_set_of(edges@).contains(e) implies (edge_set_of(old(edges)@).contains(e)
                || (exists|k: int| 0 <= k < i && e == ((#[trigger] deps@[k]), *address))) by {
                if e == (deps@[i - 1], *address) {
                    assert(0 <= i - 1 < i && e == (deps@[i - 1], *address));
                } else {
                    assert(edge_set_of(before).contains(e));
                    if !edge_set_of(old(edges)@).contains(e) {
                        let k = choose|k: int| 0 <= k < i - 1 && e == ((#[trigger] deps@[k]),
                            *address);
                        assert(0 <= k < i && e == (deps@[k], *address));
                    }
                }
            }
            assert forall|e: (CellAddress, CellAddress)|
                (edge_set_of(old(edges)@).contains(e) || (exists|k: int|
                    0 <= k < i && e == ((#[trigger] deps@[k]), *address))) implies #[trigger]
                edge_set_of(edges@).contains(e) by {
                if edge_set_of(old(edges)@).contains(e) {
                    assert(edge_set_of(before).contains(e));
                } else {
                    let k = choose|k: int| 0 <= k < i && e == ((#[trigger] deps@[k]), *address);
                    if k < i - 1 {
                        assert(edge_set_of(before).contains(e));
                    }
                }
            }
        }
    }
}

/// Whether every dependency of `n` inside `reach` is already processed.
fn is_candidate(
    edges: &Vec<(CellAddress, CellAddress)>,
    reach: &Vec<CellAddress>,
    processed: &Vec<CellAddress>,
    n: &CellAddress,
) -> (r: bool)
    ensures
        r == (forall|x: CellAddress| #[trigger]
            edge_set_of(edges@).contains((x, *n)) && reach@.contains(x)
                ==> processed@.contains(x)),
{
    proof {
        lemma_edge_set(edges@);
    }
    let mut j: usize = 0;
    while j < edges.len()
        invariant
            j <= edges@.len(),
            forall|jj: int| 0 <= jj < j ==> ((#[trigger] edges@[jj]).1 == *n && reach@.contains(
                edges@[jj].0,
            ) ==> processed@.contains(edges@[jj].0)),
        decreases edges@.len() - j,
    {
        if edges[j].1 == *n {
            if vec_contains_addr(reach, &edges[j].0) && !vec_contains_addr(
                processed,
                &edges[j].0,
            ) {
                proof {
                    lemma_edge_set(edges@);
                    assert(edges@[j as int] == (edges@[j as int].0, *n));
                    assert(edge_set_of(edges@).contains((edges@[j as int].0, *n)));
                }
                return false;
            }
        }
        j = j + 1;
    }
    proof {
        assert forall|x: CellAddress| #[trigger]
            edge_set_of(edges@).contains((x, *n)) && reach@.contains(x)
            implies processed@.contains(x) by {
            let jj = choose|jj: int| 0 <= jj < edges@.len() && (#[trigger] edges@[jj]) == (
                x,
                *n,
            );
        }
    }
    true
}

/// The smallest unprocessed node of `reach` whose in-reach dependencies are
/// all processed; smallest in column-major address order, for determinism.
fn pick_candidate(
    edges: &Vec<(CellAddress, CellAddress)>,
    reach: &Vec<CellAddress>,
    processed: &Vec<CellAddress>,
) -> (r: Option<CellAddress>)
    ensures
        match r {
            Some(n) => reach@.contains(n) && !processed@.contains(n) && (forall|x: CellAddress|
                #[trigger] edge_set_of(edges@).contains((x, n)) && reach@.contains(x)
                    ==> processed@.contains(x)),
            None => forall|m: CellAddress| reach@.contains(m) && !processed@.contains(m)
                ==> exists|x: CellAddress| #[trigger] edge_set_of(edges@).contains((x, m))
                    && reach@.contains(x) && !processed@.contains(x),
        },
{
    let mut best: Option<CellAddress> = None;
    let mut i: usize = 0;
    while i < reach.len()
        invariant
            i <= reach@.len(),
            match best {
                Some(n) => reach@.contains(n) && !processed@.contains(n) && (forall|
                    x: CellAddress,
                |
                    #[trigger] edge_set_of(edges@).contains((x, n)) && reach@.contains(x)
                        ==> processed@.contains(x)),
                None => forall|k: int| 0 <= k < i ==> (!processed@.contains(
                    #[trigger] reach@[k],
                ) ==> exists|x: CellAddress| #[trigger] edge_set_of(edges@).contains((x,
                    reach@[k])) && reach@.contains(x) && !processed@.contains(x)),
            },
        decreases reach@.len() - i,
    {
        let n = reach[i];
        if !vec_contains_addr(processed, &n) {
            let take = match &best {
                None => true,
                Some(b) => CellAddress::le(&n, b),
            };
            if take {
                if is_candidate(edges, reach, processed, &n) {
                    best = Some(n);
                } else {
                    proof {
                        let x = choose|x: CellAddress| edge_set_of(edges@).contains((x, n))
                            && reach@.contains(x) && !processed@.contains(x);
                    }
                }
            }
        }
        i = i + 1;
    }
    best
}

/// The smallest unprocessed node of `reach`, in column-major address order.
fn pick_unprocessed_min(reach: &Vec<CellAddress>, processed: &Vec<CellAddress>) -> (r: Option<
    CellAddress,
>)
    ensures
        match r {
            Some(n) => reach@.contains(n) && !processed@.contains(n),
            None => forall|k: int| 0 <= k < reach@.len() ==> processed@.contains(
                #[trigger] reach@[k],
            ),
        },
{
    let mut best: Option<CellAddress> = None;
    let mut i: usize = 0;
    while i < reach.len()
        invariant
            i <= reach@.len(),
            match best {
                Some(n) => reach@.contains(n) && !processed@.contains(n),
                None => forall|k: int| 0 <= k < i ==> processed@.contains(#[trigger] reach@[k]),
            },
        decreases reach@.len() - i,
    {
        let n = reach[i];
        if !vec_contains_addr(processed, &n) {
            let take = match &best {
                None => true,
                Some(b) => CellAddress::le(&n, b),
            };
            if take {
                best = Some(n);
            }
        }
        i = i + 1;
    }
    best
}

// --- the sheet ---

/// A sheet of cells with a dependency graph and a function registry.
pub struct Sheet {
    cells: Vec<(CellAddress, Cell)>,
    edges: Vec<(CellAddress, CellAddress)>,
    functions: Vec<(String, Function)>,
}

/// Looking up a name in the registry: the registered function's result, or
/// the undefined error.
pub open spec fn spec_call_fun(
    funs: Map<Seq<char>, Function>,
    name: Seq<char>,
    args: Seq<ValueV>,
) -> ValueV {
    if funs.contains_key(name) {
        fn_result(funs[name], args)
    } else {
        ValueV::Error(Error::Undefined)
    }
}

impl Sheet {
    /// The cells, as a map from address to cell content.
    pub closed spec fn cells_map(self) -> Map<CellAddress, CellV> {
        cells_map_of(self.cells@)
    }

    /// The dependency edges: `(a, b)` when the formula of `b` references `a`.
    pub closed spec fn edge_set(self) -> Set<(CellAddress, CellAddress)> {
        edge_set_of(self.edges@)
    }

    /// The registered functions, by name.
    pub closed spec fn funs_map(self) -> Map<Seq<char>, Function> {
        funs_map_of(self.functions@)
    }

    /// The stored entries are keyed without repetition.
    pub closed spec fn keys_unique(self) -> bool {
        cells_unique(self.cells@) && funs_unique(self.functions@)
    }

    /// The sheet invariant: an edge `(a, b)` exists exactly when the cell at
    /// `b` exists and its formula references `a` — and no other edges exist;
    /// every cell sits at a valid address and holds well-formed content.
    pub open spec fn wf(self) -> bool {
        &&& self.keys_unique()
        &&& forall|e: (CellAddress, CellAddress)| #[trigger]
            self.edge_set().contains(e) <==> (self.cells_map().contains_key(e.1)
                && self.cells_map()[e.1].formula.deps().contains(e.0))
        &&& forall|a: CellAddress| #[trigger]
            self.cells_map().contains_key(a) ==> a.valid() && self.cells_map()[a].formula.wf()
    }

    /// Every cell's stored value is what its formula evaluates to in the
    /// current state — or the cycle error, and then only where a reference
    /// cycle actually sits at or upstream of the cell.
    pub open spec fn consistent(self) -> bool {
        forall|a: CellAddress| #[trigger]
            self.cells_map().contains_key(a) ==> (self.cells_map()[a].value
                == spec_eval_formula(
                self.cells_map()[a].formula,
                self.cells_map(),
                self.funs_map(),
            ) || (self.cells_map()[a].value == ValueV::Error(Error::Cycle) && behind_cycle(
                self.edge_set(),
                a,
            )))
    }

    /// An empty sheet: no cells, no edges, no functions.
    pub fn new() -> (r: Self)
        ensures
            r.wf(),
            r.consistent(),
            r.cells_map() == Map::<CellAddress, CellV>::empty(),
            r.edge_set() == Set::<(CellAddress, CellAddress)>::empty(),
            r.funs_map() == Map::<Seq<char>, Function>::empty(),
    {
        let r = Sheet { cells: Vec::new(), edges: Vec::new(), functions: Vec::new() };
        proof {
            assert(r.cells_map() =~= Map::<CellAddress, CellV>::empty());
            assert(r.edge_set() =~= Set::<(CellAddress, CellAddress)>::empty());
            assert(r.funs_map() =~= Map::<Seq<char>, Function>::empty());
        }
        r
    }

    /// The cell at `address`, if there is one.
    pub fn cell(&self, address: &CellAddress) -> (r: Option<&Cell>)
        requires
            self.wf(),
        ensures
            match r {
                Some(c) => self.cells_map().contains_key(*address) && c@
                    == self.cells_map().index(*address),
                None => !self.cells_map().contains_key(*address),
            },
    {
        proof {
            lemma_cells_map(self.cells@);
        }
        match find_cell_idx(&self.cells, address) {
            Some(i) => Some(&self.cells[i].1),
            None => None,
        }
    }

    /// The value of the cell at `address`, if there is one.
    pub fn value(&self, address: &CellAddress) -> (r: Option<&Value>)
        requires
            self.wf(),
        ensures
            match r {
                Some(v) => self.cells_map().contains_key(*address) && v@
                    == self.cells_map().index(*address).value,
                None => !self.cells_map().contains_key(*address),
            },
    {
        match self.cell(address) {
            Some(c) => Some(c.value()),
            None => None,
        }
    }

    /// The registered function under `name`, if there is one.
    pub fn function(&self, name: &str) -> (r: Option<&Function>)
        requires
            self.wf(),
        ensures
            match r {
                Some(f) => self.funs_map().contains_key(name@) && *f == self.funs_map()[name@],
                None => !self.funs_map().contains_key(name@),
            },
    {
        proof {
            lemma_funs_map(self.functions@);
        }
        let key = name.to_owned();
        match find_fun_idx(&self.functions, &key) {
            Some(i) => Some(&self.functions[i].1),
            None => None,
        }
    }

    /// Calls the function registered under `name` with the given arguments;
    /// an unregistered name gives the undefined error.
    pub fn call(&self, name: &str, arguments: &Vec<Value>) -> (r: Value)
        requires
            self.wf(),
        ensures
            r@ == spec_call_fun(self.funs_map(), name@, vals_view(arguments@)),
    {
        match self.function(name) {
            Some(f) => f.apply(arguments),
            None => Value::Error(Error::Undefined),
        }
    }

    /// Registers `function` under `name`, replacing any previous function of
    /// that name. Cells are not reevaluated. The callable must be pure: its
    /// result must depend on its arguments alone, and it must not touch the
    /// sheet.
    pub fn set_function<F: Fn(&[Value]) -> Value + 'static>(&mut self, name: &str, function: F)
        requires
            old(self).wf(),
        ensures
            final(self).wf(),
            final(self).cells_map() == old(self).cells_map(),
            final(self).edge_set() == old(self).edge_set(),
            final(self).funs_map().contains_key(name@),
            final(self).funs_map().remove(name@) == old(self).funs_map().remove(name@),
            final(self).funs_map().dom() == old(self).funs_map().dom().insert(name@),
    {
        let f = Function::new(function);
        let key = name.to_owned();
        proof {
            lemma_funs_map(self.functions@);
        }
        match find_fun_idx(&self.functions, &key) {
            Some(i) => {
                let ghost olds = self.functions@;
                self.functions[i] = (key, f);
                proof {
                    lemma_funs_map_update(olds, i as int, self.functions@[i as int]);
                    assert(final(self).funs_map().remove(name@) =~= old(self).funs_map().remove(
                        name@,
                    ));
                    assert(final(self).funs_map().dom() =~= old(self).funs_map().dom().insert(
                        name@,
                    ));
                }
            },
            None => {
                let ghost olds = self.functions@;
                self.functions.push((key, f));
                proof {
                    lemma_funs_map_push(olds, self.functions@.last());
                    assert(final(self).funs_map().remove(name@) =~= old(self).funs_map().remove(
                        name@,
                    ));
                    assert(final(self).funs_map().dom() =~= old(self).funs_map().dom().insert(
                        name@,
                    ));
                }
            },
        }
        proof {
            assert(self.cells_map() == old(self).cells_map());
            assert(self.edge_set() == old(self).edge_set());
            assert forall|e: (CellAddress, CellAddress)| #[trigger]
                self.edge_set().contains(e) implies (self.cells_map().contains_key(e.1)
                && self.cells_map()[e.1].formula.deps().contains(e.0)) by {
                assert(old(self).edge_set().contains(e));
            }
            assert forall|e: (CellAddress, CellAddress)|
                self.cells_map().contains_key(e.1) && self.cells_map()[e.1].formula.deps(
            ).contains(e.0) implies #[trigger] self.edge_set().contains(e) by {
                assert(old(self).cells_map().contains_key(e.1));
                assert(old(self).edge_set().contains((e.0, e.1)));
            }
        }
    }

    /// Puts `input` into the cell at `address` and recalculates.
    ///
    /// The input is parsed; a parse failure changes nothing and is returned
    /// as an error. Otherwise the dependency edges of the old formula are
    /// replaced by those of the new one, the cell is stored (or removed,
    /// when the input is blank), and every cell reachable from `address` in
    /// the dependency graph is reevaluated in topological order. Cells left
    /// over when no cell is ready any more sit on or behind a reference
    /// cycle and receive the cycle error. The returned list holds every
    /// recomputed cell with its new value, in recalculation order.
    ///
    /// For determinism, the implementation breaks topological ties by
    /// taking the smallest ready address in column-major order; the
    /// contract below pins the order only as far as the dependencies and
    /// the cycle marking demand.
    #[verifier::spinoff_prover]
    pub fn set_cell(&mut self, address: CellAddress, input: String) -> (r: Result<
        Vec<(CellAddress, Value)>,
        FormulaError,
    >)
        requires
            old(self).wf(),
            address.valid(),
        ensures
            final(self).wf(),
            final(self).funs_map() == old(self).funs_map(),
            (r is Ok) == (crate::parser::spec_cell_complete(input@) is Some),
            r is Err ==> *final(self) == *old(self) && r->Err_0 == (FormulaError {
                kind: FormulaErrorKind::InvalidFormula,
            }),
            r is Ok ==> set_cell_post(*old(self), *final(self), address, input@, (r->Ok_0)@),
    {
        let ghost inputv = input@;
        let formula = match crate::parser::parse_cell_complete(input.as_str()) {
            Err(_) => {
                return Err(FormulaError { kind: FormulaErrorKind::InvalidFormula });
            },
            Ok(f) => f,
        };
        let ghost fv = formula@;
        let is_empty = match &formula {
            Formula::Literal(Value::Empty) => true,
            _ => false,
        };
        proof {
            assert(is_empty == (fv == FormulaV::Literal(ValueV::Empty)));
        }
        self.apply_edit(address, input, formula, is_empty);
        let ghost mid = *self;
        let updates = self.recalculate(address);
        proof {
            lemma_edit_post(*old(self), mid, *self, address, inputv, fv, is_empty, updates@);
        }
        Ok(updates)
    }

    /// The structural part of an edit: replaces the in-edges of `address`
    /// by the new formula's dependencies and stores the record (or removes
    /// it, when `remove` is set), leaving every value untouched.
    #[verifier::spinoff_prover]
    fn apply_edit(&mut self, address: CellAddress, input: String, formula: Formula, remove: bool)
        requires
            old(self).wf(),
            address.valid(),
            formula@.wf(),
            remove <==> formula@ == FormulaV::Literal(ValueV::Empty),
        ensures
            final(self).wf(),
            final(self).funs_map() == old(self).funs_map(),
            final(self).cells_map() == (if remove {
                old(self).cells_map().remove(address)
            } else {
                old(self).cells_map().insert(
                    address,
                    CellV {
                        input: input@,
                        formula: formula@,
                        value: if old(self).cells_map().contains_key(address) {
                            old(self).cells_map().index(address).value
                        } else {
                            ValueV::Empty
                        },
                    },
                )
            }),
    {
        let ghost fv = formula@;
        proof {
            if remove {
                assert(fv.deps() =~= Seq::<CellAddress>::empty());
            }
        }
        let deps = crate::formula::Evaluate::visit_dependecies(&formula);
        remove_in_edges(&mut self.edges, &address);
        push_edges(&mut self.edges, &deps, &address);
        store_cell(&mut self.cells, address, input, formula, remove);
        proof {
            assert forall|e: (CellAddress, CellAddress)| #[trigger]
                self.edge_set().contains(e) implies (self.cells_map().contains_key(e.1)
                && self.cells_map()[e.1].formula.deps().contains(e.0)) by {
                if e.1 == address {
                    let k = choose|k: int| 0 <= k < deps@.len() && e == ((#[trigger] deps@[k]),
                        address);
                    assert(fv.deps().contains(e.0));
                    assert(!remove);
                } else {
                    assert(old(self).edge_set().contains(e));
                }
            }
            assert forall|e: (CellAddress, CellAddress)|
                self.cells_map().contains_key(e.1) && self.cells_map()[e.1].formula.deps()
                    .contains(e.0) implies #[trigger] self.edge_set().contains(e) by {
                if e.1 == address {
                    let k = choose|k: int| 0 <= k < fv.deps().len() && fv.deps()[k] == e.0;
                    assert(deps@[k] == e.0);
                } else {
                    assert(old(self).cells_map().contains_key(e.1));
                    assert(old(self).edge_set().contains(e));
                }
            }
            assert forall|a: CellAddress| #[trigger]
                self.cells_map().contains_key(a) implies a.valid() && self.cells_map()[
                a].formula.wf() by {
                if a != address {
                    assert(old(self).cells_map().contains_key(a));
                }
            }
            assert(self.wf());
        }
    }

    /// Recomputes every cell reachable from `address` in topological
    /// order, taking the smallest ready address first for determinism;
    /// cells on or behind a cycle receive the cycle error. The contract
    /// pins the order only as far as the dependencies and the cycle
    /// marking demand.
    #[verifier::spinoff_prover]
    fn recalculate(&mut self, address: CellAddress) -> (updates: Vec<(CellAddress, Value)>)
        requires
            old(self).wf(),
        ensures
            final(self).wf(),
            final(self).funs_map() == old(self).funs_map(),
            recalc_post(*old(self), *final(self), address, updates@),
    {
        let ghost mid = *old(self);
        let reach = reachable_from(&self.edges, address);
        let ghost es = self.edge_set();
        proof {
            lemma_edge_set(self.edges@);
        }
        let (processed0, updates0, idx0) = self.recalc_main(address, &reach, Ghost(es), Ghost(mid));
        let ghost maina = processed0@;
        let ghost mainu = updates0@;
        let (processed, updates, idx) = self.recalc_cycle(
            address,
            &reach,
            processed0,
            updates0,
            idx0,
            Ghost(es),
            Ghost(mid),
        );
        proof {
            lemma_recalc_finish(
                mid,
                *self,
                address,
                es,
                reach@,
                maina,
                mainu,
                processed@,
                updates@,
                idx@,
            );
        }
        updates
    }

    /// The main phase of recalculation: while some reachable cell has all
    /// its in-reach dependencies recomputed, recompute the smallest such
    /// address.
    #[verifier::loop_isolation(false)]
    #[verifier::spinoff_prover]
    #[verifier::rlimit(100)]
    fn recalc_main(
        &mut self,
        address: CellAddress,
        reach: &Vec<CellAddress>,
        Ghost(es): Ghost<Set<(CellAddress, CellAddress)>>,
        Ghost(mid): Ghost<Sheet>,
    ) -> (r: (Vec<CellAddress>, Vec<(CellAddress, Value)>, Ghost<Map<CellAddress, int>>))
        requires
            old(self).wf(),
            mid == *old(self),
            es == old(self).edge_set(),
            reach_facts(es, reach@, address),
        ensures
            final(self).wf(),
            main_inv(*final(self), mid, es, reach@, r.0@, r.1@, r.2@),
            forall|m: CellAddress| reach@.contains(m) && !r.0@.contains(m) ==> exists|
                x: CellAddress,
            | #[trigger] es.contains((x, m)) && reach@.contains(x) && !r.0@.contains(x),
    {
        let mut processed: Vec<CellAddress> = Vec::new();
        let mut updates: Vec<(CellAddress, Value)> = Vec::new();
        let ghost mut procidx: Map<CellAddress, int> = Map::empty();
        proof {
            lemma_distinct_in_bound(processed@, reach@);
        }
        let mut next = pick_candidate(&self.edges, &reach, &processed);
        while next.is_some()
            invariant
                main_inv(*self, mid, es, reach@, processed@, updates@, procidx),
                match next {
                    Some(n) => reach@.contains(n) && !processed@.contains(n) && (forall|
                        x: CellAddress,
                    |
                        #[trigger] es.contains((x, n)) && reach@.contains(x)
                            ==> processed@.contains(x)),
                    None => forall|m: CellAddress| reach@.contains(m)
                        && !processed@.contains(m) ==> exists|x: CellAddress| #[trigger]
                        es.contains((x, m)) && reach@.contains(x) && !processed@.contains(
                        x,
                    ),
                },
            decreases reach@.len() - processed@.len(),
        {
            let n = next.unwrap();
            let ghost smap = self.cells_map();
            let ghost ub = updates@;
            match eval_cell(self, &n) {
                Some(v) => {
                    match find_cell_idx(&self.cells, &n) {
                        Some(i) => {
                            let ghost cs = self.cells@;
                            updates.push((n, v.clone()));
                            self.cells[i].1.set_value(v);
                            proof {
                                lemma_cells_map(cs);
                                lemma_cells_map_update(cs, i as int, self.cells@[i as int]);
                                assert(self.cells_map() == smap.insert(
                                    n,
                                    CellV {
                                        input: smap[n].input,
                                        formula: smap[n].formula,
                                        value: updates@.last().1@,
                                    },
                                ));
                                // rewriting one unprocessed cell leaves every
                                // processed cell's evaluation alone: the
                                // written cell is not among its dependencies,
                                // else it would already be processed
                                assert forall|p: CellAddress| #[trigger]
                                    processed@.contains(p) implies !es.contains((n, p)) by {
                                    if es.contains((n, p)) {
                                        assert(processed@.contains(n));
                                    }
                                }
                                lemma_write_frame(
                                    smap,
                                    self.cells_map(),
                                    self.funs_map(),
                                    es,
                                    n,
                                    processed@,
                                );
                                assert(!smap[n].formula.deps().contains(n)) by {
                                    if smap[n].formula.deps().contains(n) {
                                        assert(es.contains((n, n)));
                                    }
                                }
                                lemma_eval_formula_frame(
                                    smap[n].formula,
                                    smap,
                                    self.cells_map(),
                                    self.funs_map(),
                                );
                            }
                        },
                        None => {
                            proof {
                                lemma_cells_map(self.cells@);
                            }
                            vstd::pervasive::unreached()
                        },
                    }
                },
                None => {},
            }
            let ghost pb = processed@;
            processed.push(n);
            proof {
                procidx = procidx.insert(n, pb.len() as int);
                lemma_distinct_in_bound(processed@, reach@);
                assert forall|p: CellAddress, x: CellAddress| #[trigger]
                    processed@.contains(p) && #[trigger] es.contains((x, p))
                        && reach@.contains(x) implies processed@.contains(x) && procidx[x]
                    < procidx[p] by {
                    if p == n {
                        assert(pb.contains(x));
                    } else {
                        assert(pb.contains(p));
                        assert(pb.contains(x));
                    }
                }
            }
            proof {
                assert(self.cells_map().dom() =~= mid.cells_map().dom());
                assert forall|k: int| 0 <= k < updates@.len() implies processed@.contains(
                    (#[trigger] updates@[k]).0,
                ) && self.cells_map().contains_key(updates@[k].0) && self.cells_map()[
                    updates@[k].0].value == updates@[k].1@ by {
                    assert(pb.contains(updates@[k].0) || updates@[k].0 == n);
                }
                assert forall|p: CellAddress|
                    processed@.contains(p) && #[trigger] self.cells_map().contains_key(p)
                    implies updates_key(updates@, p) by {
                    if p == n {
                        assert(updates@[updates@.len() - 1].0 == n);
                    } else {
                        assert(pb.contains(p));
                        assert(updates_key(ub, p));
                        let k = choose|k: int| 0 <= k < ub.len() && (#[trigger] ub[k]).0 == p;
                        assert(updates@[k].0 == p);
                    }
                }
                assert(main_inv(*self, mid, es, reach@, processed@, updates@, procidx));
            }
            next = pick_candidate(&self.edges, &reach, &processed);
        }
        (processed, updates, Ghost(procidx))
    }

    /// The cycle phase of recalculation: every still unrecomputed reachable
    /// cell sits on or behind a reference cycle; give each the cycle error,
    /// smallest address first.
    #[verifier::loop_isolation(false)]
    #[verifier::spinoff_prover]
    #[verifier::rlimit(100)]
    fn recalc_cycle(
        &mut self,
        address: CellAddress,
        reach: &Vec<CellAddress>,
        processed0: Vec<CellAddress>,
        updates0: Vec<(CellAddress, Value)>,
        idx0: Ghost<Map<CellAddress, int>>,
        Ghost(es): Ghost<Set<(CellAddress, CellAddress)>>,
        Ghost(mid): Ghost<Sheet>,
    ) -> (r: (Vec<CellAddress>, Vec<(CellAddress, Value)>, Ghost<Map<CellAddress, int>>))
        requires
            old(self).wf(),
            es == old(self).edge_set(),
            reach_facts(es, reach@, address),
            main_inv(*old(self), mid, es, reach@, processed0@, updates0@, idx0@),
        ensures
            final(self).wf(),
            cycle_inv(
                *final(self),
                mid,
                es,
                reach@,
                processed0@,
                updates0@,
                r.0@,
                r.1@,
                r.2@,
            ),
            forall|k: int| 0 <= k < reach@.len() ==> r.0@.contains(#[trigger] reach@[k]),
    {
        let ghost maina = processed0@;
        let ghost mainu = updates0@;
        let mut processed = processed0;
        let mut updates = updates0;
        let ghost mut procidx = idx0@;
        proof {
            assert(processed@.take(maina.len() as int) =~= maina);
            assert(updates@.take(mainu.len() as int) =~= mainu);
        }
        let mut lnext = pick_unprocessed_min(&reach, &processed);
        while lnext.is_some()
            invariant
                cycle_inv(*self, mid, es, reach@, maina, mainu, processed@, updates@, procidx),
                match lnext {
                    Some(n) => reach@.contains(n) && !processed@.contains(n),
                    None => forall|k: int| 0 <= k < reach@.len() ==> processed@.contains(
                        #[trigger] reach@[k],
                    ),
                },
            decreases reach@.len() - processed@.len(),
        {
            let n = lnext.unwrap();
            let ghost smap = self.cells_map();
            let ghost ub = updates@;
            match find_cell_idx(&self.cells, &n) {
                Some(i) => {
                    let ghost cs = self.cells@;
                    proof {
                        lemma_cells_map(cs);
                    }
                    updates.push((n, Value::Error(Error::Cycle)));
                    self.cells[i].1.set_value(Value::Error(Error::Cycle));
                    proof {
                        lemma_cells_map_update(cs, i as int, self.cells@[i as int]);
                        assert(self.cells_map() == smap.insert(
                            n,
                            CellV {
                                input: smap[n].input,
                                formula: smap[n].formula,
                                value: ValueV::Error(Error::Cycle),
                            },
                        ));
                        assert forall|p: CellAddress| #[trigger]
                            maina.contains(p) implies !es.contains((n, p)) by {
                            if es.contains((n, p)) {
                                assert(maina.contains(n));
                                let k = choose|k: int| 0 <= k < maina.len() && maina[k] == n;
                                assert(processed@[k] == n);
                            }
                        }
                        assert(!maina.contains(n)) by {
                            if maina.contains(n) {
                                let k = choose|k: int| 0 <= k < maina.len() && maina[k] == n;
                                assert(processed@[k] == n);
                            }
                        }
                        lemma_write_frame(
                            smap,
                            self.cells_map(),
                            self.funs_map(),
                            es,
                            n,
                            maina,
                        );
                    }
                },
                None => {
                    proof {
                        lemma_cells_map(self.cells@);
                    }
                },
            }
            let ghost pb = processed@;
            processed.push(n);
            proof {
                procidx = procidx.insert(n, pb.len() as int);
                lemma_distinct_in_bound(processed@, reach@);
                assert(processed@.take(maina.len() as int) =~= maina);
                assert(updates@.take(mainu.len() as int) =~= mainu);
                assert forall|p: CellAddress, x: CellAddress| #[trigger]
                    maina.contains(p) && #[trigger] es.contains((x, p)) && reach@.contains(
                        x,
                    ) implies maina.contains(x) && procidx[x] < procidx[p] by {
                    assert(x != n && p != n);
                }
            }
            proof {
                assert(self.cells_map().dom() =~= mid.cells_map().dom());
                assert forall|k: int| 0 <= k < updates@.len() implies processed@.contains(
                    (#[trigger] updates@[k]).0,
                ) && self.cells_map().contains_key(updates@[k].0) && self.cells_map()[
                    updates@[k].0].value == updates@[k].1@ by {
                    assert(pb.contains(updates@[k].0) || updates@[k].0 == n);
                }
                assert forall|p: CellAddress|
                    processed@.contains(p) && #[trigger] self.cells_map().contains_key(p)
                    implies updates_key(updates@, p) by {
                    if p == n {
                        assert(updates@[updates@.len() - 1].0 == n);
                    } else {
                        assert(pb.contains(p));
                        assert(updates_key(ub, p));
                        let k = choose|k: int| 0 <= k < ub.len() && (#[trigger] ub[k]).0 == p;
                        assert(updates@[k].0 == p);
                    }
                }
                assert(cycle_inv(*self, mid, es, reach@, maina, mainu, processed@, updates@, procidx));
            }
            lnext = pick_unprocessed_min(&reach, &processed);
        }
        (processed, updates, Ghost(procidx))
    }

    /// Evaluates an expression or formula against this sheet.
    pub fn evaluate<T: crate::formula::Evaluate>(&self, expression: &T) -> (r: Value)
        requires
            self.wf(),
        ensures
            r@ == expression.spec_eval_in(self.cells_map(), self.funs_map()),
    {
        expression.evaluate(self)
    }
}

/// Whether `updates` holds an entry for `a`.
pub open spec fn updates_key(updates: Seq<(CellAddress, Value)>, a: CellAddress) -> bool {
    exists|k: int| 0 <= k < updates.len() && (#[trigger] updates[k]).0 == a
}

/// Frame rule for formulas: evaluation reads only the dependencies.
pub proof fn lemma_eval_formula_frame(
    f: FormulaV,
    cells1: Map<CellAddress, CellV>,
    cells2: Map<CellAddress, CellV>,
    funs: Map<Seq<char>, Function>,
)
    requires
        forall|a: CellAddress| #[trigger] f.deps().contains(a) ==> (cells1.contains_key(a)
            == cells2.contains_key(a) && (cells1.contains_key(a) ==> cells1[a].value
            == cells2[a].value)),
    ensures
        spec_eval_formula(f, cells1, funs) == spec_eval_formula(f, cells2, funs),
{
    match f {
        FormulaV::Literal(_) => {},
        FormulaV::Formula(e) => {
            assert forall|a: CellAddress| #[trigger] e.deps().contains(a) implies (
            cells1.contains_key(a) == cells2.contains_key(a) && (cells1.contains_key(a)
                ==> cells1[a].value == cells2[a].value)) by {
                assert(f.deps().contains(a));
            }
            lemma_eval_frame(e, cells1, cells2, funs);
        },
    }
}

/// The guarantees of the reachable-set computation: distinct addresses,
/// all reachable from `address` (which is included), closed under edges,
/// and complete.
pub open spec fn reach_facts(
    es: Set<(CellAddress, CellAddress)>,
    reach: Seq<CellAddress>,
    address: CellAddress,
) -> bool {
    &&& reach.no_duplicates()
    &&& reach.contains(address)
    &&& (forall|k: int| 0 <= k < reach.len() ==> reaches(es, address, #[trigger] reach[k]))
    &&& (forall|x: CellAddress, y: CellAddress|
        reach.contains(x) && #[trigger] es.contains((x, y)) ==> reach.contains(y))
    &&& (forall|d: CellAddress| #[trigger] reaches(es, address, d) ==> reach.contains(d))
}

/// The state while the main phase of recalculation runs: the structure of
/// the sheet is untouched, processed cells hold their formula's value in
/// the current state, unprocessed cells their old value, the updates match
/// the processed existing cells in processing order, and every processed
/// cell's in-reach dependencies were processed before it.
pub open spec fn main_inv(
    s: Sheet,
    mid: Sheet,
    es: Set<(CellAddress, CellAddress)>,
    reach: Seq<CellAddress>,
    processed: Seq<CellAddress>,
    updates: Seq<(CellAddress, Value)>,
    procidx: Map<CellAddress, int>,
) -> bool {
    &&& s.wf()
    &&& es == s.edge_set()
    &&& s.funs_map() == mid.funs_map()
    &&& s.cells_map().dom() == mid.cells_map().dom()
    &&& (forall|a: CellAddress| #[trigger] s.cells_map().contains_key(a)
        ==> s.cells_map()[a].input == mid.cells_map()[a].input && s.cells_map()[a].formula
        == mid.cells_map()[a].formula)
    &&& processed.no_duplicates()
    &&& (forall|k: int| 0 <= k < processed.len() ==> reach.contains(#[trigger] processed[k]))
    &&& processed.len() <= reach.len()
    &&& (forall|k: int| 0 <= k < processed.len() ==> procidx.contains_key(
        #[trigger] processed[k],
    ) && procidx[processed[k]] == k)
    &&& (forall|a: CellAddress| #[trigger] procidx.contains_key(a) ==> processed.contains(a))
    &&& (forall|k1: int, k2: int| 0 <= k1 < k2 < updates.len() ==> (#[trigger] updates[k1]).0
        != (#[trigger] updates[k2]).0)
    &&& (forall|k: int| 0 <= k < updates.len() ==> processed.contains(
        (#[trigger] updates[k]).0,
    ) && s.cells_map().contains_key(updates[k].0) && s.cells_map()[updates[k].0].value
        == updates[k].1@)
    &&& (forall|p: CellAddress| #[trigger] processed.contains(p) && s.cells_map().contains_key(
        p,
    ) ==> updates_key(updates, p))
    &&& (forall|k1: int, k2: int| 0 <= k1 < k2 < updates.len() ==> procidx[(
    #[trigger] updates[k1]).0] < procidx[(#[trigger] updates[k2]).0])
    &&& (forall|p: CellAddress| #[trigger] processed.contains(p) && s.cells_map().contains_key(
        p,
    ) ==> s.cells_map()[p].value == spec_eval_formula(
        s.cells_map()[p].formula,
        s.cells_map(),
        s.funs_map(),
    ))
    &&& (forall|a: CellAddress| #[trigger] s.cells_map().contains_key(a) && !processed.contains(
        a,
    ) ==> s.cells_map()[a].value == mid.cells_map()[a].value)
    &&& (forall|p: CellAddress, x: CellAddress| #[trigger] processed.contains(p) && #[trigger]
        es.contains((x, p)) && reach.contains(x) ==> processed.contains(x) && procidx[x]
        < procidx[p])
}

/// The state while the cycle phase runs: as in the main phase, but only the
/// main-phase cells are promised to hold their formula's value, later
/// entries carry the cycle error, and the dependency-order promise is kept
/// for the main-phase cells.
pub open spec fn cycle_inv(
    s: Sheet,
    mid: Sheet,
    es: Set<(CellAddress, CellAddress)>,
    reach: Seq<CellAddress>,
    maina: Seq<CellAddress>,
    mainu: Seq<(CellAddress, Value)>,
    processed: Seq<CellAddress>,
    updates: Seq<(CellAddress, Value)>,
    procidx: Map<CellAddress, int>,
) -> bool {
    &&& s.wf()
    &&& es == s.edge_set()
    &&& s.funs_map() == mid.funs_map()
    &&& s.cells_map().dom() == mid.cells_map().dom()
    &&& (forall|a: CellAddress| #[trigger] s.cells_map().contains_key(a)
        ==> s.cells_map()[a].input == mid.cells_map()[a].input && s.cells_map()[a].formula
        == mid.cells_map()[a].formula)
    &&& processed.no_duplicates()
    &&& (forall|k: int| 0 <= k < processed.len() ==> reach.contains(#[trigger] processed[k]))
    &&& processed.len() <= reach.len()
    &&& maina.len() <= processed.len() && processed.take(maina.len() as int) == maina
    &&& mainu.len() <= updates.len() && updates.take(mainu.len() as int) == mainu
    &&& (forall|k: int| mainu.len() <= k < updates.len() ==> (#[trigger] updates[k]).1@
        == ValueV::Error(Error::Cycle) && !maina.contains(updates[k].0))
    &&& (forall|k: int| 0 <= k < processed.len() ==> procidx.contains_key(
        #[trigger] processed[k],
    ) && procidx[processed[k]] == k)
    &&& (forall|a: CellAddress| #[trigger] procidx.contains_key(a) ==> processed.contains(a))
    &&& (forall|k1: int, k2: int| 0 <= k1 < k2 < updates.len() ==> (#[trigger] updates[k1]).0
        != (#[trigger] updates[k2]).0)
    &&& (forall|k: int| 0 <= k < updates.len() ==> processed.contains(
        (#[trigger] updates[k]).0,
    ) && s.cells_map().contains_key(updates[k].0) && s.cells_map()[updates[k].0].value
        == updates[k].1@)
    &&& (forall|p: CellAddress| #[trigger] processed.contains(p) && s.cells_map().contains_key(
        p,
    ) ==> updates_key(updates, p))
    &&& (forall|k1: int, k2: int| 0 <= k1 < k2 < updates.len() ==> procidx[(
    #[trigger] updates[k1]).0] < procidx[(#[trigger] updates[k2]).0])
    &&& (forall|p: CellAddress| #[trigger] maina.contains(p) && s.cells_map().contains_key(p)
        ==> s.cells_map()[p].value == spec_eval_formula(
        s.cells_map()[p].formula,
        s.cells_map(),
        s.funs_map(),
    ))
    &&& (forall|a: CellAddress| #[trigger] s.cells_map().contains_key(a) && !processed.contains(
        a,
    ) ==> s.cells_map()[a].value == mid.cells_map()[a].value)
    &&& (forall|p: CellAddress, x: CellAddress| #[trigger] maina.contains(p) && #[trigger]
        es.contains((x, p)) && reach.contains(x) ==> maina.contains(x) && procidx[x]
        < procidx[p])
}

/// Overwriting the value of one cell that no cell of `keep` depends on
/// leaves every `keep` cell's stored value equal to its formula's value.
#[verifier::spinoff_prover]
pub proof fn lemma_write_frame(
    smap: Map<CellAddress, CellV>,
    nmap: Map<CellAddress, CellV>,
    funs: Map<Seq<char>, Function>,
    es: Set<(CellAddress, CellAddress)>,
    n: CellAddress,
    keep: Seq<CellAddress>,
)
    requires
        smap.contains_key(n),
        nmap == smap.insert(
            n,
            CellV { input: smap[n].input, formula: smap[n].formula, value: nmap[n].value },
        ),
        forall|e: (CellAddress, CellAddress)| #[trigger]
            es.contains(e) <==> (smap.contains_key(e.1) && smap[e.1].formula.deps().contains(
                e.0,
            )),
        forall|p: CellAddress| #[trigger] keep.contains(p) ==> !es.contains((n, p)),
        !keep.contains(n),
        forall|p: CellAddress| #[trigger]
            keep.contains(p) && smap.contains_key(p) ==> smap[p].value == spec_eval_formula(
                smap[p].formula,
                smap,
                funs,
            ),
    ensures
        forall|p: CellAddress| #[trigger]
            keep.contains(p) && nmap.contains_key(p) ==> nmap[p].value == spec_eval_formula(
                nmap[p].formula,
                nmap,
                funs,
            ),
{
    assert forall|p: CellAddress| #[trigger]
        keep.contains(p) && nmap.contains_key(p) implies nmap[p].value == spec_eval_formula(
        nmap[p].formula,
        nmap,
        funs,
    ) by {
        assert(p != n);
        assert(smap.contains_key(p));
        assert(!smap[p].formula.deps().contains(n)) by {
            if smap[p].formula.deps().contains(n) {
                assert(es.contains((n, p)));
            }
        }
        lemma_eval_formula_frame(smap[p].formula, smap, nmap, funs);
    }
}

/// After both phases, every reachable cell that was left to the cycle
/// phase sits behind a cycle.
#[verifier::spinoff_prover]
#[verifier::rlimit(100)]
proof fn lemma_finish_update_values(
    mid: Sheet,
    post: Sheet,
    address: CellAddress,
    es: Set<(CellAddress, CellAddress)>,
    reach: Seq<CellAddress>,
    maina: Seq<CellAddress>,
    mainu: Seq<(CellAddress, Value)>,
    processed: Seq<CellAddress>,
    updates: Seq<(CellAddress, Value)>,
    procidx: Map<CellAddress, int>,
)
    requires
        es == mid.edge_set(),
        reach_facts(es, reach, address),
        cycle_inv(post, mid, es, reach, maina, mainu, processed, updates, procidx),
        forall|k: int| 0 <= k < mainu.len() ==> maina.contains((#[trigger] mainu[k]).0),
        forall|m: CellAddress| reach.contains(m) && !maina.contains(m) ==> exists|
            x: CellAddress,
        | #[trigger] es.contains((x, m)) && reach.contains(x) && !maina.contains(x),
    ensures
        forall|k: int| 0 <= k < updates.len() ==> ((#[trigger] updates[k]).1@
            == spec_eval_formula(
            post.cells_map()[updates[k].0].formula,
            post.cells_map(),
            post.funs_map(),
        ) || (updates[k].1@ == ValueV::Error(Error::Cycle) && behind_cycle(
            post.edge_set(),
            updates[k].0,
        ))),
{
    assert forall|k: int| 0 <= k < mainu.len() implies maina.contains(
        (#[trigger] updates[k]).0,
    ) by {
        assert(mainu[k] == updates[k]);
    }
    assert forall|k: int| 0 <= k < updates.len() implies ((#[trigger] updates[k]).1@
        == spec_eval_formula(
        post.cells_map()[updates[k].0].formula,
        post.cells_map(),
        post.funs_map(),
    ) || (updates[k].1@ == ValueV::Error(Error::Cycle) && behind_cycle(
        post.edge_set(),
        updates[k].0,
    ))) by {
        let a = updates[k].0;
        if k < mainu.len() {
            assert(maina.contains(a));
            assert(post.cells_map()[a].value == updates[k].1@);
        } else {
            assert(!maina.contains(a));
            assert(processed.contains(a));
            let j = choose|j: int| 0 <= j < processed.len() && processed[j] == a;
            assert(reach.contains(processed[j]));
            lemma_leftover_behind_cycle(es, reach, maina, a);
        }
    }
}

/// After both phases, every reachable existing cell holds its formula's
/// value, or the cycle error with a cycle at or upstream of it.
#[verifier::spinoff_prover]
#[verifier::rlimit(100)]
proof fn lemma_finish_affected_values(
    post: Sheet,
    address: CellAddress,
    es: Set<(CellAddress, CellAddress)>,
    reach: Seq<CellAddress>,
    maina: Seq<CellAddress>,
    mainu: Seq<(CellAddress, Value)>,
    processed: Seq<CellAddress>,
    updates: Seq<(CellAddress, Value)>,
)
    requires
        es == post.edge_set(),
        reach_facts(es, reach, address),
        forall|k: int| 0 <= k < reach.len() ==> processed.contains(#[trigger] reach[k]),
        forall|k: int| 0 <= k < mainu.len() ==> maina.contains((#[trigger] updates[k]).0),
        forall|p: CellAddress| #[trigger] maina.contains(p) && post.cells_map().contains_key(
            p,
        ) ==> post.cells_map()[p].value == spec_eval_formula(
            post.cells_map()[p].formula,
            post.cells_map(),
            post.funs_map(),
        ),
        forall|p: CellAddress| #[trigger] processed.contains(p)
            && post.cells_map().contains_key(p) ==> updates_key(updates, p),
        forall|k: int| mainu.len() <= k < updates.len() ==> (#[trigger] updates[k]).1@
            == ValueV::Error(Error::Cycle),
        forall|k: int| 0 <= k < updates.len() ==> post.cells_map().contains_key(
            (#[trigger] updates[k]).0,
        ) && post.cells_map()[updates[k].0].value == updates[k].1@,
        forall|m: CellAddress| reach.contains(m) && !maina.contains(m) ==> exists|
            x: CellAddress,
        | #[trigger] es.contains((x, m)) && reach.contains(x) && !maina.contains(x),
    ensures
        forall|a: CellAddress| #[trigger] post.cells_map().contains_key(a) && reaches(
            es,
            address,
            a,
        ) ==> (post.cells_map()[a].value == spec_eval_formula(
            post.cells_map()[a].formula,
            post.cells_map(),
            post.funs_map(),
        ) || (post.cells_map()[a].value == ValueV::Error(Error::Cycle) && behind_cycle(
            post.edge_set(),
            a,
        ))),
{
    assert forall|a: CellAddress|
        #[trigger] post.cells_map().contains_key(a) && reaches(es, address, a) implies (
    post.cells_map()[a].value == spec_eval_formula(
        post.cells_map()[a].formula,
        post.cells_map(),
        post.funs_map(),
    ) || (post.cells_map()[a].value == ValueV::Error(Error::Cycle) && behind_cycle(
        post.edge_set(),
        a,
    ))) by {
        assert(reach.contains(a));
        let j = choose|j: int| 0 <= j < reach.len() && reach[j] == a;
        assert(processed.contains(reach[j]));
        if maina.contains(a) {
        } else {
            assert(updates_key(updates, a));
            let k = choose|k: int| 0 <= k < updates.len() && (#[trigger] updates[k]).0 == a;
            if k < mainu.len() {
                assert(maina.contains(a));
                assert(false);
            }
            assert(post.cells_map()[a].value == updates[k].1@);
            lemma_leftover_behind_cycle(es, reach, maina, a);
        }
    }
}

/// After both phases, the recalculation promises hold./// After both phases, the recalculation promises hold./// After both phases, the recalculation promises hold.
#[verifier::spinoff_prover]
#[verifier::rlimit(100)]
pub proof fn lemma_recalc_finish(
    mid: Sheet,
    post: Sheet,
    address: CellAddress,
    es: Set<(CellAddress, CellAddress)>,
    reach: Seq<CellAddress>,
    maina: Seq<CellAddress>,
    mainu: Seq<(CellAddress, Value)>,
    processed: Seq<CellAddress>,
    updates: Seq<(CellAddress, Value)>,
    procidx: Map<CellAddress, int>,
)
    requires
        es == mid.edge_set(),
        reach_facts(es, reach, address),
        cycle_inv(post, mid, es, reach, maina, mainu, processed, updates, procidx),
        forall|k: int| 0 <= k < reach.len() ==> processed.contains(#[trigger] reach[k]),
        forall|k: int| 0 <= k < mainu.len() ==> maina.contains((#[trigger] mainu[k]).0),
        forall|m: CellAddress| reach.contains(m) && !maina.contains(m) ==> exists|
            x: CellAddress,
        | #[trigger] es.contains((x, m)) && reach.contains(x) && !maina.contains(x),
    ensures
        recalc_post(mid, post, address, updates),
{
    reveal(recalc_post);
    assert(reach.contains(address));
    assert forall|a: CellAddress| #[trigger]
        updates_key(updates, a) implies (post.cells_map().contains_key(a) && reaches(
        post.edge_set(),
        address,
        a,
    )) by {
        let k = choose|k: int| 0 <= k < updates.len() && (#[trigger] updates[k]).0 == a;
        assert(processed.contains(a));
        let j = choose|j: int| 0 <= j < processed.len() && processed[j] == a;
        assert(reach.contains(processed[j]));
    }
    assert forall|a: CellAddress|
        post.cells_map().contains_key(a) && reaches(post.edge_set(), address, a) implies
        #[trigger] updates_key(updates, a) by {
        assert(reach.contains(a));
        let k = choose|k: int| 0 <= k < reach.len() && reach[k] == a;
        assert(processed.contains(reach[k]));
    }
    assert forall|k: int| 0 <= k < mainu.len() implies maina.contains(
        (#[trigger] updates[k]).0,
    ) by {
        assert(mainu[k] == updates[k]);
    }
    lemma_finish_update_values(
        mid, post, address, es, reach, maina, mainu, processed, updates, procidx,
    );
    lemma_finish_affected_values(
        post, address, es, reach, maina, mainu, processed, updates,
    );
    assert forall|a: CellAddress|
        #[trigger] post.cells_map().contains_key(a) && !updates_key(updates, a)
        implies post.cells_map()[a] == mid.cells_map()[a] by {
        assert(!processed.contains(a));
        assert(post.cells_map()[a].value == mid.cells_map()[a].value);
    }
    assert forall|k1: int, k2: int|
        0 <= k1 < updates.len() && 0 <= k2 < updates.len() && post.edge_set().contains(
            ((#[trigger] updates[k1]).0, (#[trigger] updates[k2]).0),
        ) implies (k1 < k2 || (updates[k1].1@ == ValueV::Error(Error::Cycle) && updates[k2].1@
        == ValueV::Error(Error::Cycle))) by {
        let u1 = updates[k1].0;
        let u2 = updates[k2].0;
        assert(processed.contains(u1));
        let j1 = choose|j: int| 0 <= j < processed.len() && processed[j] == u1;
        assert(reach.contains(u1));
        if k2 < mainu.len() {
            assert(maina.contains(u2));
            assert(maina.contains(u1) && procidx[u1] < procidx[u2]);
            if k2 < k1 {
                assert(procidx[u2] < procidx[u1]);
                assert(false);
            }
            if k1 == k2 {
                assert(false);
            }
        } else {
            assert(updates[k2].1@ == ValueV::Error(Error::Cycle));
            if k1 >= mainu.len() {
                assert(updates[k1].1@ == ValueV::Error(Error::Cycle));
            }
        }
    }
    // cells on a mutual cycle were both left to the cycle phase
    assert forall|k1: int, k2: int|
        0 <= k1 < updates.len() && 0 <= k2 < updates.len() && post.edge_set().contains(
            ((#[trigger] updates[k1]).0, (#[trigger] updates[k2]).0),
        ) && reaches(post.edge_set(), updates[k2].0, updates[k1].0) implies (updates[k1].1@
        == ValueV::Error(Error::Cycle) && updates[k2].1@ == ValueV::Error(Error::Cycle)) by {
        let u1 = updates[k1].0;
        let u2 = updates[k2].0;
        lemma_updates_on_cycle(
            mid, post, address, es, reach, maina, mainu, processed, updates, procidx, k1, k2,
        );
    }
}

/// A pair of updated cells joined by an edge and a path back lies on a
/// cycle, so neither was recomputed in the main phase and both received the
/// cycle error.
#[verifier::spinoff_prover]
#[verifier::rlimit(100)]
proof fn lemma_updates_on_cycle(
    mid: Sheet,
    post: Sheet,
    address: CellAddress,
    es: Set<(CellAddress, CellAddress)>,
    reach: Seq<CellAddress>,
    maina: Seq<CellAddress>,
    mainu: Seq<(CellAddress, Value)>,
    processed: Seq<CellAddress>,
    updates: Seq<(CellAddress, Value)>,
    procidx: Map<CellAddress, int>,
    k1: int,
    k2: int,
)
    requires
        reach_facts(es, reach, address),
        cycle_inv(post, mid, es, reach, maina, mainu, processed, updates, procidx),
        forall|k: int| 0 <= k < mainu.len() ==> maina.contains((#[trigger] updates[k]).0),
        0 <= k1 < updates.len(),
        0 <= k2 < updates.len(),
        es.contains((updates[k1].0, updates[k2].0)),
        reaches(es, updates[k2].0, updates[k1].0),
    ensures
        updates[k1].1@ == ValueV::Error(Error::Cycle),
        updates[k2].1@ == ValueV::Error(Error::Cycle),
{
    let u1 = updates[k1].0;
    let u2 = updates[k2].0;
    // close the path from u2 back to u1 with the edge into u2: a cycle
    let p = choose|p: Seq<CellAddress>| is_path(es, p) && p.first() == u2 && p.last() == u1;
    let q = p.push(u2);
    assert forall|k: int| #![trigger q.index(k)] 0 <= k < q.len() - 1 implies es.contains(
        (q[k], q[k + 1]),
    ) by {
        if k < p.len() - 1 {
            assert(q[k] == p[k] && q[k + 1] == p[k + 1]);
        } else {
            assert(q[k] == u1 && q[k + 1] == u2);
        }
    }
    assert(is_path(es, q));
    assert(q.first() == u2 && q.last() == u2);
    // every cycle node is reachable from the edited address
    assert(processed.contains(u2));
    let j2 = choose|j: int| 0 <= j < processed.len() && processed[j] == u2;
    assert(reach.contains(processed[j2]));
    let jr = choose|j: int| 0 <= j < reach.len() && reach[j] == u2;
    assert(reaches(es, address, reach[jr]));
    lemma_path_reaches_nodes(es, q);
    assert forall|m: int| 0 <= m < q.len() implies reach.contains(#[trigger] q[m]) by {
        assert(reaches(es, u2, q[m]));
        lemma_reaches_trans(es, address, u2, q[m]);
    }
    // main-phase indexes are list positions, so nonnegative
    assert forall|a: CellAddress| #[trigger] maina.contains(a) implies procidx[a] >= 0 by {
        let k = choose|j: int| 0 <= j < maina.len() && maina[j] == a;
        assert(processed[k] == a);
    }
    // no cycle node was recomputed in the main phase
    if maina.contains(u1) {
        lemma_cycle_unprocessed(es, reach, maina, procidx, q, procidx[u1]);
        assert(q[q.len() - 2] == u1);
        assert(false);
    }
    if maina.contains(u2) {
        lemma_cycle_unprocessed(es, reach, maina, procidx, q, procidx[u2]);
        assert(q[0] == u2);
        assert(false);
    }
    if k1 < mainu.len() {
        assert(maina.contains(updates[k1].0));
        assert(false);
    }
    if k2 < mainu.len() {
        assert(maina.contains(updates[k2].0));
        assert(false);
    }
}

/// Gluing the structural edit and the recalculation into the promises of
/// the whole cell edit.
#[verifier::spinoff_prover]
#[verifier::rlimit(100)]
pub proof fn lemma_edit_post(
    pre: Sheet,
    mid: Sheet,
    post: Sheet,
    address: CellAddress,
    input: Seq<char>,
    f: FormulaV,
    removed: bool,
    updates: Seq<(CellAddress, Value)>,
)
    requires
        pre.wf(),
        post.wf(),
        crate::parser::spec_cell_complete(input) is Some,
        crate::parser::spec_cell_complete(input)->0 == f,
        removed <==> f == FormulaV::Literal(ValueV::Empty),
        mid.funs_map() == pre.funs_map(),
        mid.cells_map() == (if removed {
            pre.cells_map().remove(address)
        } else {
            pre.cells_map().insert(
                address,
                CellV {
                    input: input,
                    formula: f,
                    value: if pre.cells_map().contains_key(address) {
                        pre.cells_map().index(address).value
                    } else {
                        ValueV::Empty
                    },
                },
            )
        }),
        recalc_post(mid, post, address, updates),
    ensures
        set_cell_post(pre, post, address, input, updates),
{
    reveal(recalc_post);
    reveal(set_cell_post);
    let es = post.edge_set();
    lemma_reaches_self(es, address);
    if removed {
        assert(post.cells_map().dom() =~= pre.cells_map().dom().remove(address));
    } else {
        assert(post.cells_map().dom() =~= pre.cells_map().dom().insert(address));
        assert(post.cells_map().contains_key(address));
        assert(mid.cells_map().contains_key(address));
        assert(mid.cells_map()[address].input == input);
        assert(mid.cells_map()[address].formula == f);
        assert(post.cells_map()[address].input == mid.cells_map()[address].input);
        assert(post.cells_map()[address].formula == mid.cells_map()[address].formula);
    }
    assert forall|a: CellAddress|
        a != address && #[trigger] post.cells_map().contains_key(a) && !updates_key(
            updates,
            a,
        ) implies post.cells_map()[a] == pre.cells_map()[a] by {
        assert(mid.cells_map()[a] == pre.cells_map()[a]);
    }
    if pre.consistent() {
        // edges not into the edited address keep their justification
        assert forall|e: (CellAddress, CellAddress)| #[trigger]
            pre.edge_set().contains(e) && e.1 != address implies post.edge_set().contains(
            e,
        ) by {
            assert(pre.cells_map().contains_key(e.1));
            assert(pre.cells_map()[e.1].formula.deps().contains(e.0));
            assert(mid.cells_map().contains_key(e.1));
            assert(mid.cells_map()[e.1] == pre.cells_map()[e.1]);
            assert(post.cells_map().contains_key(e.1));
            assert(post.cells_map()[e.1].formula == mid.cells_map()[e.1].formula);
            assert(post.edge_set().contains(e));
        }
        assert forall|a: CellAddress| #[trigger]
            post.cells_map().contains_key(a) implies (post.cells_map()[a].value
            == spec_eval_formula(
            post.cells_map()[a].formula,
            post.cells_map(),
            post.funs_map(),
        ) || (post.cells_map()[a].value == ValueV::Error(Error::Cycle) && behind_cycle(
            post.edge_set(),
            a,
        ))) by {
            if !reaches(es, address, a) {
                assert(a != address);
                assert(!updates_key(updates, a));
                assert(post.cells_map()[a] == pre.cells_map()[a]);
                assert forall|d: CellAddress| #[trigger]
                    pre.cells_map()[a].formula.deps().contains(d) implies (
                pre.cells_map().contains_key(d) == post.cells_map().contains_key(d) && (
                pre.cells_map().contains_key(d) ==> pre.cells_map()[d].value
                    == post.cells_map()[d].value)) by {
                    assert(post.cells_map()[a].formula.deps().contains(d));
                    assert(es.contains((d, a)));
                    assert(!reaches(es, address, d)) by {
                        if reaches(es, address, d) {
                            lemma_reaches_step(es, address, d, a);
                        }
                    }
                    assert(d != address);
                    assert(!updates_key(updates, d));
                    if post.cells_map().contains_key(d) {
                        assert(post.cells_map()[d] == pre.cells_map()[d]);
                        assert(mid.cells_map()[d] == pre.cells_map()[d]);
                    } else {
                        assert(!mid.cells_map().contains_key(d));
                    }
                }
                lemma_eval_formula_frame(
                    pre.cells_map()[a].formula,
                    pre.cells_map(),
                    post.cells_map(),
                    post.funs_map(),
                );
                assert(pre.cells_map()[a].value == spec_eval_formula(
                    pre.cells_map()[a].formula,
                    pre.cells_map(),
                    pre.funs_map(),
                ) || (pre.cells_map()[a].value == ValueV::Error(Error::Cycle)
                    && behind_cycle(pre.edge_set(), a)));
                if post.cells_map()[a].value != spec_eval_formula(
                    post.cells_map()[a].formula,
                    post.cells_map(),
                    post.funs_map(),
                ) {
                    lemma_behind_cycle_survives(pre.edge_set(), post.edge_set(), address, a);
                }
            }
        }
        assert(post.consistent());
    }
    assert(set_cell_post(pre, post, address, input, updates));
}

/// What recalculation from `address` guarantees: nothing but cell values
/// changes; the returned updates list exactly the existing cells reachable
/// from `address`, with their new values; each is its formula's value in
/// the final state, or the cycle error where a cycle sits at or upstream
/// of the cell; untouched cells keep their whole record; and an updated
/// cell follows the updated cells it depends on, unless both carry the
/// cycle error.
#[verifier::opaque]
pub open spec fn recalc_post(
    pre: Sheet,
    post: Sheet,
    address: CellAddress,
    updates: Seq<(CellAddress, Value)>,
) -> bool {
    &&& post.cells_map().dom() == pre.cells_map().dom()
    &&& post.edge_set() == pre.edge_set()
    &&& post.funs_map() == pre.funs_map()
    &&& (forall|a: CellAddress| #[trigger] post.cells_map().contains_key(a)
        ==> post.cells_map()[a].input == pre.cells_map()[a].input && post.cells_map()[
        a].formula == pre.cells_map()[a].formula)
    &&& (forall|a: CellAddress| #[trigger] post.cells_map().contains_key(a) && !updates_key(
        updates,
        a,
    ) ==> post.cells_map()[a] == pre.cells_map()[a])
    &&& (forall|a: CellAddress| #[trigger] updates_key(updates, a) <==> (
    post.cells_map().contains_key(a) && reaches(post.edge_set(), address, a)))
    &&& (forall|k: int| 0 <= k < updates.len() ==> post.cells_map().contains_key(
        (#[trigger] updates[k]).0,
    ) && post.cells_map()[updates[k].0].value == updates[k].1@)
    &&& (forall|k1: int, k2: int| 0 <= k1 < k2 < updates.len() ==> (#[trigger] updates[k1]).0
        != (#[trigger] updates[k2]).0)
    &&& (forall|k: int| 0 <= k < updates.len() ==> ((#[trigger] updates[k]).1@
        == spec_eval_formula(
        post.cells_map()[updates[k].0].formula,
        post.cells_map(),
        post.funs_map(),
    ) || (updates[k].1@ == ValueV::Error(Error::Cycle) && behind_cycle(
        post.edge_set(),
        updates[k].0,
    ))))
    &&& (forall|a: CellAddress| #[trigger] post.cells_map().contains_key(a) && reaches(
        post.edge_set(),
        address,
        a,
    ) ==> (post.cells_map()[a].value == spec_eval_formula(
        post.cells_map()[a].formula,
        post.cells_map(),
        post.funs_map(),
    ) || (post.cells_map()[a].value == ValueV::Error(Error::Cycle) && behind_cycle(
        post.edge_set(),
        a,
    ))))
    &&& (forall|k1: int, k2: int| 0 <= k1 < updates.len() && 0 <= k2 < updates.len()
        && post.edge_set().contains(((#[trigger] updates[k1]).0, (#[trigger] updates[k2]).0))
        ==> (k1 < k2 || (updates[k1].1@ == ValueV::Error(Error::Cycle) && updates[k2].1@
        == ValueV::Error(Error::Cycle))))
    &&& (forall|k1: int, k2: int| 0 <= k1 < updates.len() && 0 <= k2 < updates.len()
        && post.edge_set().contains(((#[trigger] updates[k1]).0, (#[trigger] updates[k2]).0))
        && reaches(post.edge_set(), updates[k2].0, updates[k1].0) ==> (updates[k1].1@
        == ValueV::Error(Error::Cycle) && updates[k2].1@ == ValueV::Error(Error::Cycle)))
}

/// What a successful `set_cell` guarantees, beyond preservation of the
/// invariant: the edited cell is stored or removed; every other cell keeps
/// its input and formula; the returned updates list exactly the still
/// existing cells reachable from the edited address in the new dependency
/// graph, with their new values; each updated value is the value of its
/// formula in the final state, or the cycle error where a cycle sits at or
/// upstream of the cell; an updated cell comes after the updated cells it
/// depends on, unless both carry the cycle error; and a sheet whose values
/// were consistent stays consistent.
#[verifier::opaque]
pub open spec fn set_cell_post(
    pre: Sheet,
    post: Sheet,
    address: CellAddress,
    input: Seq<char>,
    updates: Seq<(CellAddress, Value)>,
) -> bool {
    let f = crate::parser::spec_cell_complete(input)->0;
    let removed = f == FormulaV::Literal(ValueV::Empty);
    &&& post.cells_map().dom() == (if removed {
        pre.cells_map().dom().remove(address)
    } else {
        pre.cells_map().dom().insert(address)
    })
    &&& (!removed ==> post.cells_map()[address].input == input && post.cells_map()[
        address].formula == f)
    &&& (forall|a: CellAddress| a != address && #[trigger] post.cells_map().contains_key(a)
        ==> pre.cells_map().contains_key(a) && post.cells_map()[a].input
        == pre.cells_map()[a].input && post.cells_map()[a].formula == pre.cells_map()[
        a].formula)
    &&& (forall|a: CellAddress| a != address && #[trigger] post.cells_map().contains_key(a)
        && !updates_key(updates, a) ==> post.cells_map()[a] == pre.cells_map()[a])
    &&& (forall|a: CellAddress| #[trigger] updates_key(updates, a) <==> (
    post.cells_map().contains_key(a) && reaches(post.edge_set(), address, a)))
    &&& (forall|k: int| 0 <= k < updates.len() ==> post.cells_map().contains_key(
        (#[trigger] updates[k]).0,
    ) && post.cells_map()[updates[k].0].value == updates[k].1@)
    &&& (forall|k1: int, k2: int| 0 <= k1 < k2 < updates.len() ==> (#[trigger] updates[k1]).0
        != (#[trigger] updates[k2]).0)
    &&& (forall|k: int| 0 <= k < updates.len() ==> ((#[trigger] updates[k]).1@
        == spec_eval_formula(
        post.cells_map()[updates[k].0].formula,
        post.cells_map(),
        post.funs_map(),
    ) || (updates[k].1@ == ValueV::Error(Error::Cycle) && behind_cycle(
        post.edge_set(),
        updates[k].0,
    ))))
    &&& (forall|k1: int, k2: int| 0 <= k1 < updates.len() && 0 <= k2 < updates.len()
        && post.edge_set().contains(((#[trigger] updates[k1]).0, (#[trigger] updates[k2]).0))
        ==> (k1 < k2 || (updates[k1].1@ == ValueV::Error(Error::Cycle) && updates[k2].1@
        == ValueV::Error(Error::Cycle))))
    &&& (forall|k1: int, k2: int| 0 <= k1 < updates.len() && 0 <= k2 < updates.len()
        && post.edge_set().contains(((#[trigger] updates[k1]).0, (#[trigger] updates[k2]).0))
        && reaches(post.edge_set(), updates[k2].0, updates[k1].0) ==> (updates[k1].1@
        == ValueV::Error(Error::Cycle) && updates[k2].1@ == ValueV::Error(Error::Cycle)))
    &&& (pre.consistent() ==> post.consistent())
}

/// Evaluates the formula of the cell at `a`, if the cell exists.
fn eval_cell(context: &Sheet, a: &CellAddress) -> (r: Option<Value>)
    requires
        context.wf(),
    ensures
        match r {
            Some(v) => context.cells_map().contains_key(*a) && v@ == spec_eval_formula(
                context.cells_map().index(*a).formula,
                context.cells_map(),
                context.funs_map(),
            ),
            None => !context.cells_map().contains_key(*a),
        },
{
    match context.cell(a) {
        Some(c) => Some(crate::formula::Evaluate::evaluate(c.formula(), context)),
        None => None,
    }
}

/// Stores or removes the cell record at `address`: removal drops it, an
/// edit keeps the old value in place for the recalculation to overwrite.
fn store_cell(
    cells: &mut Vec<(CellAddress, Cell)>,
    address: CellAddress,
    input: String,
    formula: Formula,
    remove: bool,
)
    requires
        cells_unique(old(cells)@),
    ensures
        cells_unique(final(cells)@),
        remove ==> cells_map_of(final(cells)@) == cells_map_of(old(cells)@).remove(address),
        !remove ==> cells_map_of(final(cells)@) == cells_map_of(old(cells)@).insert(
            address,
            CellV {
                input: input@,
                formula: formula@,
                value: if cells_map_of(old(cells)@).contains_key(address) {
                    cells_map_of(old(cells)@).index(address).value
                } else {
                    ValueV::Empty
                },
            },
        ),
{
    proof {
        lemma_cells_map(cells@);
    }
    match find_cell_idx(cells, &address) {
        Some(i) => {
            let ghost cs = cells@;
            if remove {
                cells.remove(i);
                proof {
                    lemma_cells_map_remove(cs, i as int);
                }
            } else {
                cells[i].1.set_input_formula(input, formula);
                proof {
                    lemma_cells_map_update(cs, i as int, cells@[i as int]);
                    assert(cells_map_of(cs).index(address) == cs[i as int].1@);
                }
            }
        },
        None => {
            if remove {
                proof {
                    assert(!cells_map_of(cells@).contains_key(address));
                    assert(cells_map_of(cells@).remove(address) =~= cells_map_of(cells@));
                }
            } else {
                let ghost cs = cells@;
                let fresh = Cell::from_parts(input, formula, Value::Empty);
                cells.push((address, fresh));
                proof {
                    lemma_cells_map_push(cs, cells@.last());
                }
            }
        },
    }
}

/// The index of the entry for `address`, if there is one.
fn find_cell_idx(cells: &Vec<(CellAddress, Cell)>, address: &CellAddress) -> (r: Option<usize>)
    ensures
        match r {
            Some(i) => i < cells@.len() && cells@[i as int].0 == *address,
            None => forall|i: int| 0 <= i < cells@.len() ==> (#[trigger] cells@[i]).0 != *address,
        },
{
    let mut i: usize = 0;
    while i < cells.len()
        invariant
            i <= cells@.len(),
            forall|j: int| 0 <= j < i ==> (#[trigger] cells@[j]).0 != *address,
        decreases cells@.len() - i,
    {
        if cells[i].0 == *address {
            return Some(i);
        }
        i = i + 1;
    }
    None
}

/// The index of the entry for `name`, if there is one.
fn find_fun_idx(funs: &Vec<(String, Function)>, name: &String) -> (r: Option<usize>)
    ensures
        match r {
            Some(i) => i < funs@.len() && funs@[i as int].0@ == name@,
            None => forall|i: int| 0 <= i < funs@.len() ==> (#[trigger] funs@[i]).0@ != name@,
        },
{
    let mut i: usize = 0;
    while i < funs.len()
        invariant
            i <= funs@.len(),
            forall|j: int| 0 <= j < i ==> (#[trigger] funs@[j]).0@ != name@,
        decreases funs@.len() - i,
    {
        if funs[i].0 == *name {
            return Some(i);
        }
        i = i + 1;
    }
    None
}

/// Evaluates an expression against the sheet.
pub fn eval_expr(e: &Expression, context: &Sheet) -> (r: Value)
    requires
        context.wf(),
    ensures
        r@ == spec_eval(e@, context.cells_map(), context.funs_map()),
    decreases *e,
{
    match e {
        Expression::Literal(v) => v.clone(),
        Expression::Reference(a) => Value::cloned_or_empty(context.value(a)),
        Expression::Call { name, arguments } => {
            let mut vals: Vec<Value> = Vec::new();
            let mut k: usize = 0;
            proof {
                assert(vals_view(vals@) =~= spec_eval_args(
                    exprs_view_rec(arguments@).take(0),
                    context.cells_map(),
                    context.funs_map(),
                ));
            }
            while k < arguments.len()
                invariant
                    context.wf(),
                    k <= arguments@.len(),
                    e == &(Expression::Call { name: *name, arguments: *arguments }),
                    vals_view(vals@) == spec_eval_args(
                        exprs_view_rec(arguments@).take(k as int),
                        context.cells_map(),
                        context.funs_map(),
                    ),
                decreases arguments@.len() - k,
            {
                proof {
                    assert(decreases_to!(*e => e->Call_arguments));
                    assert(decreases_to!(*arguments => arguments@));
                    assert(decreases_to!(arguments@ => arguments@[k as int]));
                }
                let v = eval_expr(&arguments[k], context);
                vals.push(v);
                k = k + 1;
                proof {
                    lemma_exprs_view_rec(arguments@);
                    let t = exprs_view_rec(arguments@).take(k as int);
                    assert(t.drop_last() =~= exprs_view_rec(arguments@).take(k as int - 1));
                    assert(t.last() == arguments@[k as int - 1]@);
                    assert(vals_view(vals@) =~= spec_eval_args(
                        t,
                        context.cells_map(),
                        context.funs_map(),
                    ));
                }
            }
            proof {
                lemma_exprs_view_rec(arguments@);
                assert(exprs_view_rec(arguments@).take(arguments@.len() as int)
                    =~= exprs_view_rec(arguments@));
            }
            context.call(name.as_str(), &vals)
        },
    }
}

} // verus!
