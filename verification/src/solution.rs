//! The basic solution of a tableau: why it meets the equations of the model,
//! why it respects the upper bounds of the variables, and why the optimum
//! that the method reports is the greatest value that the objective can
//! have.

use crate::model::{
    bound_constraint, bounded, constraint_names, lemma_bound_constraint_exactly_once,
    lemma_normalized_idempotent, normalized_constraints, preprocessed, variable_names,
    ConstraintView, ModelView, VariableView,
};
use crate::simplex::{
    advanced, eliminated_row, entering, is_infeasible, last_tableau, leaving, normalized_row, pivoted,
    run, step, StepView,
};
use crate::tableau::{
    auxiliary_columns, basic_solution, constraint_row, is_basic, is_basic_row, is_column_of,
    is_penalized, marked_row, model_tableau, penalty, tableau_of, value_of, with_row, TableauView,
};
use crate::theorems::{
    feasible, lemma_entering_exists, lemma_leaving_exists, lemma_pivot_keeps_feasible, lemma_pivoted_wf,
};
use vstd::prelude::*;

verus! {

/// The product of a row's entry in column `j` and the value of the column's
/// variable.
pub open spec fn term(row: Seq<real>, x: Seq<real>, j: int) -> real {
    row[j] * x[j]
}

/// The left-hand side of a row's equation for the values `x`: the sum of
/// the terms of columns 1 to `n - 1`.
pub open spec fn weighted_sum(row: Seq<real>, x: Seq<real>, n: int) -> real
    decreases n,
{
    if n <= 1 {
        0real
    } else {
        weighted_sum(row, x, n - 1) + term(row, x, n - 1)
    }
}

/// Whether the values `x` meet the equation of a row: the left-hand side
/// equals the right-hand side, which stands in column 0.
pub open spec fn satisfies(row: Seq<real>, x: Seq<real>) -> bool {
    weighted_sum(row, x, row.len() as int) == row[0]
}

/// Whether the values `x` meet the equation of every row: those of the
/// constraints and, in row 0, that of the objective.
pub open spec fn solves(t: TableauView, x: Seq<real>) -> bool {
    forall|r: int| 0 <= r < t.rows.len() ==> satisfies(#[trigger] t.rows[r], x)
}

/// Whether no variable of the model or of a constraint has a negative value.
pub open spec fn non_negative(x: Seq<real>) -> bool {
    forall|j: int| 2 <= j < x.len() ==> #[trigger] x[j] >= 0real
}

/// Whether the tableau is in canonical form: the objective's own variable is
/// the basic variable of row 0, the basic variable of each constraint's row
/// has a column after the first two, and the column of each row's basic
/// variable has 1 in that row and 0 in all others.
pub open spec fn canonical(t: TableauView) -> bool {
    &&& t.basic[0] == 1
    &&& forall|r: int| 1 <= r < t.rows.len() ==> #[trigger] t.basic[r] >= 2
    &&& forall|r: int, i: int|
        0 <= r < t.rows.len() && 0 <= i < t.rows.len() ==> (#[trigger] t.rows[i])[#[trigger] t.basic[r]]
            == if i == r {
            1real
        } else {
            0real
        }
}

/// A sum in which only the terms of columns `a` and `b` may differ from 0 is
/// the sum of these two terms, as far as they are in it.
pub proof fn lemma_two_terms(row: Seq<real>, x: Seq<real>, n: int, a: int, b: int)
    requires
        1 <= a,
        1 <= b,
        a != b,
        forall|j: int| 1 <= j < n && j != a && j != b ==> #[trigger] term(row, x, j) == 0real,
    ensures
        weighted_sum(row, x, n) == (if a < n {
            term(row, x, a)
        } else {
            0real
        }) + (if b < n {
            term(row, x, b)
        } else {
            0real
        }),
    decreases n,
{
    if n > 1 {
        lemma_two_terms(row, x, n - 1, a, b);
        if n - 1 != a && n - 1 != b {
            assert(term(row, x, n - 1) == 0real);
        }
    }
}

/// A sum whose terms from column 2 on are not negative is at least its term
/// of column 1.
pub proof fn lemma_sum_at_least_first(row: Seq<real>, x: Seq<real>, n: int)
    requires
        2 <= n,
        forall|j: int| 2 <= j < n ==> #[trigger] term(row, x, j) >= 0real,
    ensures
        weighted_sum(row, x, n) >= term(row, x, 1),
    decreases n,
{
    if n > 2 {
        lemma_sum_at_least_first(row, x, n - 1);
        assert(term(row, x, n - 1) >= 0real);
    } else {
        assert(weighted_sum(row, x, 1) == 0real);
    }
}

/// If a row is another row plus `k` times a third, entry by entry, then so
/// is its left-hand side.
pub proof fn lemma_weighted_sum_linear(
    a: Seq<real>,
    b: Seq<real>,
    u: Seq<real>,
    k: real,
    x: Seq<real>,
    n: int,
)
    requires
        forall|j: int| 1 <= j < n ==> #[trigger] a[j] == b[j] + k * u[j],
    ensures
        weighted_sum(a, x, n) == weighted_sum(b, x, n) + k * weighted_sum(u, x, n),
    decreases n,
{
    if n > 1 {
        lemma_weighted_sum_linear(a, b, u, k, x, n - 1);
        let j = n - 1;
        let aj = a[j];
        let bj = b[j];
        let uj = u[j];
        let xj = x[j];
        let s = weighted_sum(u, x, n - 1);
        assert(aj == bj + k * uj);
        assert(aj * xj == bj * xj + k * (uj * xj)) by (nonlinear_arith)
            requires
                aj == bj + k * uj,
        ;
        assert(k * (s + uj * xj) == k * s + k * (uj * xj)) by (nonlinear_arith);
    }
}

/// The first row up to `upto` whose basic variable has column `j`.
spec fn first_row(t: TableauView, j: int, upto: int) -> int
    decreases upto,
{
    if upto <= 0 {
        0
    } else if exists|i: int| 0 <= i < upto && #[trigger] t.basic[i] == j {
        first_row(t, j, upto - 1)
    } else {
        upto
    }
}

proof fn lemma_first_row(t: TableauView, j: int, upto: int, i: int)
    requires
        0 <= i <= upto,
        t.basic[i] == j,
    ensures
        0 <= first_row(t, j, upto) <= i,
        t.basic[first_row(t, j, upto)] == j,
        forall|k: int| 0 <= k < first_row(t, j, upto) ==> #[trigger] t.basic[k] != j,
    decreases upto,
{
    if upto > 0 {
        if exists|k: int| 0 <= k < upto && #[trigger] t.basic[k] == j {
            let k = choose|k: int| 0 <= k < upto && #[trigger] t.basic[k] == j;
            lemma_first_row(t, j, upto - 1, k);
            if i < upto {
                lemma_first_row(t, j, upto - 1, i);
            }
        } else {
            assert(i == upto);
        }
    }
}

/// The basic variable of a row is basic.
pub proof fn lemma_first_basic_row(t: TableauView, r: int)
    requires
        0 <= r < t.rows.len(),
    ensures
        is_basic(t, t.basic[r]),
{
    let j = t.basic[r];
    lemma_first_row(t, j, r, r);
    assert(is_basic_row(t, first_row(t, j, r), j));
}

/// In canonical form the basic solution meets the equation of every row.
pub proof fn lemma_basic_solution_solves(t: TableauView)
    requires
        t.wf(),
        canonical(t),
    ensures
        solves(t, basic_solution(t)),
{
    let x = basic_solution(t);
    assert forall|i: int| 0 <= i < t.rows.len() implies satisfies(#[trigger] t.rows[i], x) by {
        let row = t.rows[i];
        let b = t.basic[i];
        assert(row.len() == t.cols());
        assert(1 <= b < t.cols());
        assert forall|j: int| 1 <= j < t.cols() && j != b implies #[trigger] term(row, x, j)
            == 0real by {
            if is_basic(t, j) {
                let r = choose|r: int| is_basic_row(t, r, j);
                assert(t.basic[r] == j);
                assert(t.rows[i][t.basic[r]] == 0real);
            }
        }
        lemma_first_basic_row(t, i);
        let r = choose|r: int| is_basic_row(t, r, b);
        assert(t.basic[r] == b);
        assert(t.rows[i][t.basic[r]] == if i == r { 1real } else { 0real });
        assert(t.rows[i][t.basic[i]] == 1real);
        assert(r == i);
        assert(term(row, x, b) == row[0]);
        lemma_two_terms(row, x, t.cols() as int, b, t.cols() as int);
    }
}

/// In canonical form the basic solution gives the objective's own variable
/// the value of the objective.
pub proof fn lemma_basic_solution_objective(t: TableauView)
    requires
        t.wf(),
        canonical(t),
    ensures
        basic_solution(t)[1] == t.rows[0][0],
{
    assert(is_basic_row(t, 0, 1));
    let r = choose|r: int| is_basic_row(t, r, 1);
    if r != 0 {
        assert(t.basic[0] != 1);
    }
}

/// In a feasible tableau in canonical form the basic solution gives no
/// variable of the model or of a constraint a negative value.
pub proof fn lemma_basic_solution_non_negative(t: TableauView)
    requires
        t.wf(),
        canonical(t),
        feasible(t),
    ensures
        non_negative(basic_solution(t)),
{
    let x = basic_solution(t);
    assert forall|j: int| 2 <= j < x.len() implies #[trigger] x[j] >= 0real by {
        if is_basic(t, j) {
            let r = choose|r: int| is_basic_row(t, r, j);
            assert(t.basic[r] == j);
            assert(r != 0);
            assert(t.rows[r][0] >= 0real);
        }
    }
}

/// A pivot does not change what the equations say: values meet them after
/// it exactly if they met them before.
pub proof fn lemma_pivot_keeps_solutions(t: TableauView, r: int, c: int, x: Seq<real>)
    requires
        t.wf(),
        0 <= r < t.rows.len(),
        0 <= c < t.cols(),
        t.rows[r][c] != 0real,
    ensures
        solves(pivoted(t, r, c), x) == solves(t, x),
{
    let next = pivoted(t, r, c);
    let unit = normalized_row(t.rows[r], c);
    let n = t.cols() as int;
    let p = t.rows[r][c];
    let pivot_row = t.rows[r];
    assert(pivot_row.len() == n);
    assert(next.rows[r] == unit);
    if solves(next, x) {
        assert(satisfies(next.rows[r], x));
        assert forall|i: int| 0 <= i < t.rows.len() implies satisfies(#[trigger] t.rows[i], x) by {
            let row = t.rows[i];
            assert(row.len() == n);
            if i == r {
                let k = p - 1real;
                assert forall|j: int| 0 <= j < n implies #[trigger] row[j] == unit[j] + k * unit[j] by {
                    let e = row[j];
                    assert(unit[j] == e / p);
                    assert(e == e / p + (p - 1real) * (e / p)) by (nonlinear_arith)
                        requires
                            p != 0real,
                    ;
                }
                lemma_weighted_sum_linear(row, unit, unit, k, x, n);
                assert(weighted_sum(unit, x, n) == unit[0]);
                assert(row[0] == unit[0] + k * unit[0]);
            } else {
                let k = row[c];
                let reduced = eliminated_row(row, unit, c);
                assert(next.rows[i] == reduced);
                assert(satisfies(next.rows[i], x));
                assert forall|j: int| 0 <= j < n implies #[trigger] row[j] == reduced[j] + k
                    * unit[j] by {}
                lemma_weighted_sum_linear(row, reduced, unit, k, x, n);
                assert(row[0] == reduced[0] + k * unit[0]);
            }
        }
    }
    if solves(t, x) {
        assert(satisfies(t.rows[r], x));
        let k = 1real / p - 1real;
        assert forall|j: int| 0 <= j < n implies #[trigger] unit[j] == pivot_row[j] + k
            * pivot_row[j] by {
            let e = pivot_row[j];
            assert(unit[j] == e / p);
            assert(e / p == e + (1real / p - 1real) * e) by (nonlinear_arith)
                requires
                    p != 0real,
            ;
        }
        lemma_weighted_sum_linear(unit, pivot_row, pivot_row, k, x, n);
        assert(weighted_sum(pivot_row, x, n) == pivot_row[0]);
        assert(unit[0] == pivot_row[0] + k * pivot_row[0]);
        assert(satisfies(unit, x));
        assert forall|i: int| 0 <= i < next.rows.len() implies satisfies(#[trigger] next.rows[i], x) by {
            let row = t.rows[i];
            assert(row.len() == n);
            assert(satisfies(row, x));
            if i != r {
                let reduced = eliminated_row(row, unit, c);
                let m = -row[c];
                assert(next.rows[i] == reduced);
                assert forall|j: int| 0 <= j < n implies #[trigger] reduced[j] == row[j] + m
                    * unit[j] by {
                    let u = unit[j];
                    let e = row[c];
                    assert(row[j] - e * u == row[j] + (-e) * u) by (nonlinear_arith);
                }
                lemma_weighted_sum_linear(reduced, row, unit, m, x, n);
                assert(reduced[0] == row[0] + m * unit[0]);
            }
        }
    }
}

/// A pivot on a constraint's row, in the column of a variable of the model
/// or of a constraint and on a nonzero entry, keeps the canonical form.
pub proof fn lemma_pivot_keeps_canonical(t: TableauView, r: int, c: int)
    requires
        t.wf(),
        canonical(t),
        1 <= r < t.rows.len(),
        2 <= c < t.cols(),
        t.rows[r][c] != 0real,
    ensures
        canonical(pivoted(t, r, c)),
{
    let next = pivoted(t, r, c);
    let unit = normalized_row(t.rows[r], c);
    let p = t.rows[r][c];
    assert(t.rows[r].len() == t.cols());
    assert(unit[c] == 1real) by {
        assert(p / p == 1real) by (nonlinear_arith)
            requires
                p != 0real,
        ;
    }
    assert forall|q: int, i: int|
        0 <= q < next.rows.len() && 0 <= i < next.rows.len() implies (#[trigger] next.rows[i])[#[trigger] next.basic[q]]
        == if i == q {
        1real
    } else {
        0real
    } by {
        assert(t.rows[i].len() == t.cols());
        let e = t.rows[i][c];
        if q == r {
            assert(next.basic[q] == c);
            if i != r {
                assert(next.rows[i][c] == e - e * unit[c]);
                assert(e - e * 1real == 0real);
            }
        } else {
            let b = t.basic[q];
            assert(next.basic[q] == b);
            assert(0 <= b < t.cols());
            assert(t.rows[r][t.basic[q]] == 0real);
            assert(unit[b] == 0real) by {
                assert(0real / p == 0real) by (nonlinear_arith)
                    requires
                        p != 0real,
                ;
            }
            assert(t.rows[i][t.basic[q]] == if i == q { 1real } else { 0real });
            if i != r {
                assert(next.rows[i][b] == t.rows[i][b] - e * unit[b]);
                assert(e * 0real == 0real);
            }
        }
    }
    assert forall|q: int| 1 <= q < next.rows.len() implies #[trigger] next.basic[q] >= 2 by {
        if q != r {
            assert(next.basic[q] == t.basic[q]);
        }
    }
}

/// Where the method starts from a tableau in canonical form, every tableau
/// on its way is in canonical form and has the same solutions; and if the
/// start is feasible, so is every tableau on the way.
pub proof fn lemma_advanced(start: TableauView, pivots: nat)
    requires
        start.wf(),
        canonical(start),
        advanced(start, pivots) is Some,
    ensures
        advanced(start, pivots).unwrap().wf(),
        advanced(start, pivots).unwrap().rows.len() == start.rows.len(),
        advanced(start, pivots).unwrap().cols() == start.cols(),
        advanced(start, pivots).unwrap().names == start.names,
        advanced(start, pivots).unwrap().artificial == start.artificial,
        canonical(advanced(start, pivots).unwrap()),
        feasible(start) ==> feasible(advanced(start, pivots).unwrap()),
        forall|x: Seq<real>| #[trigger]
            solves(advanced(start, pivots).unwrap(), x) == solves(start, x),
    decreases pivots,
{
    if pivots > 0 {
        let next = step(start)->Moved_0;
        let last = advanced(start, pivots).unwrap();
        let c = entering(start);
        let r = leaving(start, c);
        lemma_entering_exists(start);
        lemma_leaving_exists(start, c);
        assert(next == pivoted(start, r, c));
        lemma_pivoted_wf(start, r, c);
        if feasible(start) {
            lemma_pivot_keeps_feasible(start, r, c);
        }
        lemma_pivot_keeps_canonical(start, r, c);
        lemma_advanced(next, (pivots - 1) as nat);
        assert forall|x: Seq<real>| #[trigger] solves(last, x) == solves(start, x) by {
            assert(solves(last, x) == solves(next, x));
            lemma_pivot_keeps_solutions(start, r, c, x);
        }
    }
}

/// The tableau at which a run comes to rest is one of the tableaus on the
/// method's way.
pub proof fn lemma_last_tableau_advanced(t: TableauView, fuel: nat) -> (pivots: nat)
    ensures
        pivots <= fuel,
        advanced(t, pivots) == Some(last_tableau(t, fuel)),
    decreases fuel,
{
    if fuel == 0 {
        0
    } else {
        match step(t) {
            StepView::Stopped(_) => 0,
            StepView::Moved(next) => {
                let before = lemma_last_tableau_advanced(next, (fuel - 1) as nat);
                before + 1
            },
        }
    }
}

/// The optimum that a run reports is the value of the objective in the
/// tableau at which the run comes to rest, and that tableau has no negative
/// entry in row 0 and no artificial variable left with a positive value.
pub proof fn lemma_optimum_at_rest(t: TableauView, fuel: nat)
    requires
        run(t, fuel) is Optimal,
    ensures
        run(t, fuel)->Optimal_0 == last_tableau(t, fuel).rows[0][0],
        !last_tableau(t, fuel).has_negative_reduced_cost(),
        !is_infeasible(last_tableau(t, fuel)),
    decreases fuel,
{
    if fuel > 0 {
        match step(t) {
            StepView::Stopped(_) => {},
            StepView::Moved(next) => {
                lemma_optimum_at_rest(next, (fuel - 1) as nat);
            },
        }
    }
}

/// The optimum that a run reports is an upper limit of the objective: no
/// values that meet the equations of the start, and are not negative, give
/// the objective more.
pub proof fn lemma_optimum_is_upper_limit(start: TableauView, fuel: nat, x: Seq<real>)
    requires
        start.wf(),
        canonical(start),
        run(start, fuel) is Optimal,
        x.len() == start.cols(),
        solves(start, x),
        non_negative(x),
    ensures
        x[1] <= run(start, fuel)->Optimal_0,
{
    let rest = last_tableau(start, fuel);
    let pivots = lemma_last_tableau_advanced(start, fuel);
    lemma_advanced(start, pivots);
    lemma_optimum_at_rest(start, fuel);
    let row = rest.rows[0];
    let n = rest.cols() as int;
    assert(solves(rest, x));
    assert(satisfies(row, x));
    assert(row[rest.basic[0]] == 1real);
    assert forall|j: int| 2 <= j < n implies #[trigger] term(row, x, j) >= 0real by {
        let e = row[j];
        let v = x[j];
        assert(!(rest.rows[0][j] < 0real));
        assert(v >= 0real);
        assert(e * v >= 0real) by (nonlinear_arith)
            requires
                e >= 0real,
                v >= 0real,
        ;
    }
    lemma_sum_at_least_first(row, x, n);
    assert(term(row, x, 1) == x[1]);
}

/// Where the start is feasible, the optimum that a run reports is reached:
/// the basic solution of the tableau at rest meets the equations of the
/// start, is not negative, and gives the objective the optimum.
pub proof fn lemma_optimum_is_reached(start: TableauView, fuel: nat)
    requires
        start.wf(),
        canonical(start),
        feasible(start),
        run(start, fuel) is Optimal,
    ensures
        basic_solution(last_tableau(start, fuel)).len() == start.cols(),
        solves(start, basic_solution(last_tableau(start, fuel))),
        non_negative(basic_solution(last_tableau(start, fuel))),
        basic_solution(last_tableau(start, fuel))[1] == run(start, fuel)->Optimal_0,
{
    let rest = last_tableau(start, fuel);
    let pivots = lemma_last_tableau_advanced(start, fuel);
    lemma_advanced(start, pivots);
    lemma_optimum_at_rest(start, fuel);
    lemma_basic_solution_solves(rest);
    lemma_basic_solution_objective(rest);
    lemma_basic_solution_non_negative(rest);
}

/// Whether row `r` of a tableau is the row of `constraint`: it holds the
/// right-hand side and the coefficient of each variable of the model; among
/// the variables of constraints it holds 1 for its basic variable, which is
/// artificial exactly if the constraint calls for that, -1 for its surplus
/// variable, which has the next column, and 0 for all others.
pub open spec fn row_holds(t: TableauView, r: int, constraint: ConstraintView) -> bool {
    &&& t.rows[r][0] == constraint.relation.rhs()
    &&& forall|j: int|
        2 <= j < 2 + t.names.len() ==> #[trigger] t.rows[r][j] == constraint.coefficient(
            t.names[j - 2],
        )
    &&& t.artificial[t.basic[r]] == is_penalized(constraint.relation)
    &&& t.basic[r] + auxiliary_columns(constraint.relation) <= t.cols()
    &&& forall|j: int|
        2 + t.names.len() <= j < t.cols() ==> #[trigger] t.rows[r][j] == if j == t.basic[r] {
            1real
        } else if j == t.basic[r] + 1 && auxiliary_columns(constraint.relation) == 2 {
            -1real
        } else {
            0real
        }
}

/// Whether a tableau is as the first `count` of the constraints make it: in
/// canonical form, with the row of each constraint in its place, each basic
/// variable of a constraint after the model's variables, and no artificial
/// variable in the first two columns.
pub open spec fn built(t: TableauView, constraints: Seq<ConstraintView>, count: nat) -> bool {
    &&& t.wf()
    &&& t.rows.len() == count + 1
    &&& !t.artificial[0]
    &&& !t.artificial[1]
    &&& forall|r: int| 1 <= r <= count ==> 2 + t.names.len() <= #[trigger] t.basic[r]
    &&& canonical(t)
    &&& forall|r: int| 1 <= r <= count ==> row_holds(t, r, #[trigger] constraints[r - 1])
}

/// Adding the next constraint's row to a tableau keeps it as its
/// constraints make it.
pub proof fn lemma_with_row_built(t: TableauView, constraints: Seq<ConstraintView>, count: nat)
    requires
        built(t, constraints, count),
        count < constraints.len(),
    ensures
        built(with_row(t, constraints[count as int]), constraints, count + 1),
        with_row(t, constraints[count as int]).names == t.names,
{
    let constraint = constraints[count as int];
    let next = with_row(t, constraint);
    let cols = t.cols();
    let extra = auxiliary_columns(constraint.relation);
    let n = t.names.len();
    let row = constraint_row(t.names, constraint, cols);
    let marked = marked_row(t, constraint);
    let last: int = count as int + 1;
    assert(t.rows[0].len() == cols);
    assert(marked.len() == cols + extra);
    assert(next.rows[0].len() == cols + extra);
    assert(next.cols() == cols + extra);
    assert(next.rows[last] == row);
    assert forall|i: int| 0 <= i < next.rows.len() implies (#[trigger] next.rows[i]).len()
        == next.cols() by {
        if 0 < i < last {
            assert(t.rows[i].len() == cols);
        }
    }
    assert forall|i: int| 0 <= i < next.basic.len() implies 0 <= #[trigger] next.basic[i]
        < next.cols() by {
        if i < last {
            assert(next.basic[i] == t.basic[i]);
        }
    }
    assert(next.wf());
    assert forall|i: int, j: int| 1 <= i < last && 0 <= j < cols implies #[trigger] next.rows[i][j]
        == t.rows[i][j] by {
        assert(t.rows[i].len() == cols);
    }
    assert forall|i: int, j: int| 1 <= i < last && cols <= j < cols + extra implies #[trigger] next.rows[i][j]
        == 0real by {
        assert(t.rows[i].len() == cols);
    }
    assert forall|j: int| 1 <= j < cols + extra && !(2 <= j < 2 + n) && j != cols && j != cols
        + 1 implies #[trigger] row[j] == 0real by {}
    assert forall|j: int| 0 <= j < cols implies #[trigger] next.rows[0][j] == t.rows[0][j] - (if is_penalized(
        constraint.relation,
    ) {
        penalty() * row[j]
    } else {
        0real
    }) by {}
    assert(next.rows[0][cols as int] == 0real) by {
        assert(row[cols as int] == 1real);
        assert(penalty() * 1real == penalty());
    }
    assert forall|r: int| 1 <= r <= last implies 2 + next.names.len() <= #[trigger] next.basic[r] by {
        if r < last {
            assert(next.basic[r] == t.basic[r]);
        }
    }
    assert(next.basic[0] == t.basic[0]);
    assert forall|r: int, i: int|
        0 <= r < next.rows.len() && 0 <= i < next.rows.len() implies (#[trigger] next.rows[i])[#[trigger] next.basic[r]]
        == if i == r {
        1real
    } else {
        0real
    } by {
        if r < last {
            let b = t.basic[r];
            assert(next.basic[r] == b);
            assert(1 <= b < cols);
            assert(r >= 1 ==> 2 + n <= b);
            if i < last {
                assert(t.rows[i][t.basic[r]] == if i == r { 1real } else { 0real });
                if i == 0 {
                    assert(row[b] == 0real);
                    assert(penalty() * 0real == 0real);
                    assert(next.rows[0][b] == t.rows[0][b]);
                } else {
                    assert(next.rows[i][b] == t.rows[i][b]);
                }
            } else {
                assert(row[b] == 0real);
            }
        } else {
            assert(next.basic[r] == cols);
            if 0 < i < last {
                assert(next.rows[i][cols as int] == 0real);
            }
        }
    }
    assert forall|r: int| 1 <= r <= last implies row_holds(next, r, #[trigger] constraints[r - 1]) by {
        let held = constraints[r - 1];
        if r < last {
            assert(row_holds(t, r, held));
            assert(next.basic[r] == t.basic[r]);
            assert(t.basic[r] < cols);
            assert forall|j: int| 2 <= j < 2 + next.names.len() implies #[trigger] next.rows[r][j]
                == held.coefficient(next.names[j - 2]) by {
                assert(next.rows[r][j] == t.rows[r][j]);
            }
            assert forall|j: int| 2 + next.names.len() <= j < next.cols() implies #[trigger] next.rows[r][j]
                == if j == next.basic[r] {
                1real
            } else if j == next.basic[r] + 1 && auxiliary_columns(held.relation) == 2 {
                -1real
            } else {
                0real
            } by {
                if j < cols {
                    assert(next.rows[r][j] == t.rows[r][j]);
                } else {
                    assert(next.rows[r][j] == 0real);
                }
            }
        } else {
            assert(next.basic[r] == cols);
        }
    }
}

/// The tableau of the first `count` constraints is as they make it.
pub proof fn lemma_tableau_of_built(
    variables: Seq<VariableView>,
    constraints: Seq<ConstraintView>,
    count: nat,
)
    requires
        count <= constraints.len(),
        tableau_of(variables, constraints, count) is Some,
    ensures
        built(tableau_of(variables, constraints, count).unwrap(), constraints, count),
        tableau_of(variables, constraints, count).unwrap().names == variable_names(variables),
    decreases count,
{
    if count > 0 {
        lemma_tableau_of_built(variables, constraints, (count - 1) as nat);
        let before = tableau_of(variables, constraints, (count - 1) as nat).unwrap();
        lemma_with_row_built(before, constraints, (count - 1) as nat);
    }
}

/// The tableau of a model is in canonical form.
pub proof fn lemma_start_is_canonical(model: ModelView)
    requires
        model_tableau(model) is Some,
    ensures
        model_tableau(model).unwrap().wf(),
        canonical(model_tableau(model).unwrap()),
{
    lemma_tableau_of_built(model.variables, model.constraints, model.constraints.len());
}

/// Where no upper bound is negative, adding the bound constraints to
/// constraints without a negative right-hand side leaves none with one.
pub proof fn lemma_bounded_rhs(
    constraints: Seq<ConstraintView>,
    variables: Seq<VariableView>,
    count: nat,
)
    requires
        count <= variables.len(),
        forall|k: int| 0 <= k < constraints.len() ==> (#[trigger] constraints[k]).relation.rhs() >= 0real,
        forall|k: int|
            0 <= k < variables.len() && (#[trigger] variables[k]).upper_bound is Some
                ==> variables[k].upper_bound.unwrap() >= 0real,
    ensures
        forall|k: int|
            0 <= k < bounded(constraints, variables, count).len() ==> (#[trigger] bounded(
                constraints,
                variables,
                count,
            )[k]).relation.rhs() >= 0real,
    decreases count,
{
    if count > 0 {
        lemma_bounded_rhs(constraints, variables, (count - 1) as nat);
        let before = bounded(constraints, variables, (count - 1) as nat);
        let after = bounded(constraints, variables, count);
        let v = variables[count - 1];
        match v.upper_bound {
            Some(upper) => {
                let added = bound_constraint(v.name, upper);
                let names = constraint_names(before);
                assert forall|k: int| 0 <= k < after.len() implies (#[trigger] after[k]).relation.rhs()
                    >= 0real by {
                    if names.contains(added.name) {
                        let at = names.index_of(added.name);
                        if k != at {
                            assert(after[k] == before[k]);
                        }
                    } else {
                        if k < before.len() {
                            assert(after[k] == before[k]);
                        }
                    }
                }
            },
            None => {},
        }
    }
}

/// The tableau of a preprocessed model whose upper bounds are not negative
/// is feasible at the start.
pub proof fn lemma_start_is_feasible(model: ModelView)
    requires
        forall|k: int|
            0 <= k < model.variables.len() && (#[trigger] model.variables[k]).upper_bound is Some
                ==> model.variables[k].upper_bound.unwrap() >= 0real,
        model_tableau(preprocessed(model)) is Some,
    ensures
        feasible(model_tableau(preprocessed(model)).unwrap()),
{
    let variables = model.variables;
    let constraints = preprocessed(model).constraints;
    let start = model_tableau(preprocessed(model)).unwrap();
    let normalized = normalized_constraints(model.constraints);
    assert forall|k: int| 0 <= k < normalized.len() implies (#[trigger] normalized[k]).relation.rhs()
        >= 0real by {
        lemma_normalized_idempotent(model.constraints[k]);
    }
    lemma_bounded_rhs(normalized, variables, variables.len());
    lemma_tableau_of_built(variables, constraints, constraints.len());
    assert forall|r: int| 1 <= r < start.rows.len() implies (#[trigger] start.rows[r])[0] >= 0real by {
        assert(row_holds(start, r, constraints[r - 1]));
    }
}

/// The value that the basic solution gives to a variable with an upper
/// bound does not exceed the bound: at the start and after any number of
/// pivots of the method, for every model whose upper bounds are not
/// negative.
pub proof fn lemma_upper_bound_respected(model: ModelView, i: int, pivots: nat)
    requires
        model.wf(),
        forall|k: int|
            0 <= k < model.variables.len() && (#[trigger] model.variables[k]).upper_bound is Some
                ==> model.variables[k].upper_bound.unwrap() >= 0real,
        0 <= i < model.variables.len(),
        model.variables[i].upper_bound is Some,
        model_tableau(preprocessed(model)) is Some,
        advanced(model_tableau(preprocessed(model)).unwrap(), pivots) is Some,
    ensures
        value_of(advanced(model_tableau(preprocessed(model)).unwrap(), pivots).unwrap(), 2 + i)
            <= model.variables[i].upper_bound.unwrap(),
{
    let variables = model.variables;
    let upper = variables[i].upper_bound.unwrap();
    let constraints = preprocessed(model).constraints;
    let start = model_tableau(preprocessed(model)).unwrap();
    let t = advanced(start, pivots).unwrap();
    lemma_start_is_feasible(model);
    lemma_tableau_of_built(variables, constraints, constraints.len());
    lemma_advanced(start, pivots);
    lemma_basic_solution_solves(t);
    lemma_basic_solution_non_negative(t);
    let x = basic_solution(t);
    assert(solves(start, x));
    lemma_bound_constraint_exactly_once(model, i);
    let wanted = bound_constraint(variables[i].name, upper);
    let k = choose|k: int| 0 <= k < constraints.len() && #[trigger] constraints[k] == wanted;
    let r = k + 1;
    let row = start.rows[r];
    let slack = start.basic[r];
    let n = start.cols() as int;
    assert(row_holds(start, r, constraints[r - 1]));
    assert(satisfies(row, x));
    assert(row.len() == n);
    assert(variable_names(variables)[i] == variables[i].name);
    assert(row[2 + i] == 1real);
    assert(start.rows[r][start.basic[r]] == 1real);
    assert(start.rows[r][start.basic[0]] == 0real);
    assert forall|j: int| 1 <= j < n && j != 2 + i && j != slack implies #[trigger] term(row, x, j)
        == 0real by {
        if 2 <= j < 2 + start.names.len() {
            assert(variable_names(variables)[j - 2] != variable_names(variables)[i]);
            assert(row[j] == wanted.coefficient(start.names[j - 2]));
            assert(row[j] == 0real);
        } else {
            assert(row[j] == 0real);
        }
    }
    lemma_two_terms(row, x, n, 2 + i, slack);
    assert(x[2 + i] + x[slack] == upper);
    assert(x[slack] >= 0real);
}

/// Where a run with at most `limit` pivots comes to rest, the value that the
/// basic solution gives to a variable with an upper bound does not exceed
/// the bound, for every model whose upper bounds are not negative.
pub proof fn lemma_upper_bound_respected_at_rest(model: ModelView, i: int, limit: nat, column: int)
    requires
        model.wf(),
        forall|k: int|
            0 <= k < model.variables.len() && (#[trigger] model.variables[k]).upper_bound is Some
                ==> model.variables[k].upper_bound.unwrap() >= 0real,
        0 <= i < model.variables.len(),
        model.variables[i].upper_bound is Some,
        model_tableau(preprocessed(model)) is Some,
        is_column_of(
            last_tableau(model_tableau(preprocessed(model)).unwrap(), limit),
            column,
            model.variables[i].name,
        ),
    ensures
        value_of(last_tableau(model_tableau(preprocessed(model)).unwrap(), limit), column)
            <= model.variables[i].upper_bound.unwrap(),
{
    let variables = model.variables;
    let constraints = preprocessed(model).constraints;
    let start = model_tableau(preprocessed(model)).unwrap();
    let rest = last_tableau(start, limit);
    let pivots = lemma_last_tableau_advanced(start, limit);
    lemma_upper_bound_respected(model, i, pivots);
    lemma_tableau_of_built(variables, constraints, constraints.len());
    lemma_advanced(start, pivots);
    assert(rest.names == variable_names(variables));
    if column != 2 + i {
        assert(variable_names(variables)[column - 2] == variable_names(variables)[i]);
    }
}

} // verus!
