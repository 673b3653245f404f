//! What an optimum means for the model: no values of the variables that
//! meet the constraints give the objective more, and the values that the
//! method ends with meet the constraints and give it exactly that much.

use crate::model::{
    bound_constraint, bound_name, bounded, constraint_names, lemma_bounded, lemma_with_constraint,
    normalized_constraints, preprocessed, variable_names, ConstraintView, ModelView, Relation,
    VariableView,
};
use crate::simplex::{is_residual, last_tableau, run};
use crate::solution::{
    lemma_advanced, lemma_basic_solution_non_negative, lemma_basic_solution_objective,
    lemma_basic_solution_solves, lemma_last_tableau_advanced, lemma_optimum_at_rest,
    lemma_optimum_is_upper_limit, lemma_start_is_feasible, lemma_tableau_of_built,
    lemma_weighted_sum_linear, non_negative, row_holds, satisfies, solves, term, weighted_sum,
};
use crate::tableau::{
    auxiliary_columns, basic_solution, constraint_row, is_basic, is_basic_row, is_penalized,
    marked_row, model_tableau, objective_row, penalized_row, penalty, tableau_of, with_row,
    TableauView,
};
use crate::theorems::feasible;
use vstd::prelude::*;

verus! {

/// The left-hand side of a constraint for the values `y` of the first `n`
/// variables: the sum of each coefficient times its variable's value.
pub open spec fn left_side(constraint: ConstraintView, names: Seq<Seq<char>>, y: Seq<real>, n: int) -> real
    decreases n,
{
    if n <= 0 {
        0real
    } else {
        left_side(constraint, names, y, n - 1) + constraint.coefficient(names[n - 1]) * y[n - 1]
    }
}

/// Whether the values `y` of the variables meet a constraint.
pub open spec fn holds(constraint: ConstraintView, names: Seq<Seq<char>>, y: Seq<real>) -> bool {
    let left = left_side(constraint, names, y, names.len() as int);
    match constraint.relation {
        Relation::LessThan(rhs) => left <= rhs,
        Relation::Equals(rhs) => left == rhs,
        Relation::GreaterThan(rhs) => left >= rhs,
    }
}

/// The value of the objective for the values `y` of the first `n`
/// variables: the sum of each objective coefficient times its variable's
/// value.
pub open spec fn objective_of(variables: Seq<VariableView>, y: Seq<real>, n: int) -> real
    decreases n,
{
    if n <= 0 {
        0real
    } else {
        objective_of(variables, y, n - 1) + variables[n - 1].objective * y[n - 1]
    }
}

/// Whether the values `y` are admissible: one value for each variable, none
/// negative, and every constraint met.
pub open spec fn admissible(model: ModelView, y: Seq<real>) -> bool {
    &&& y.len() == model.variables.len()
    &&& forall|j: int| 0 <= j < y.len() ==> #[trigger] y[j] >= 0real
    &&& forall|k: int|
        0 <= k < model.constraints.len() ==> holds(
            #[trigger] model.constraints[k],
            variable_names(model.variables),
            y,
        )
}

/// The values of the model's `n` variables among the values of all columns.
pub open spec fn model_part(x: Seq<real>, n: nat) -> Seq<real> {
    Seq::new(n, |j: int| x[j + 2])
}

/// Two sums whose terms agree are equal.
pub proof fn lemma_sum_agrees(a: Seq<real>, x: Seq<real>, b: Seq<real>, w: Seq<real>, n: int)
    requires
        forall|j: int| 1 <= j < n ==> #[trigger] term(a, x, j) == term(b, w, j),
    ensures
        weighted_sum(a, x, n) == weighted_sum(b, w, n),
    decreases n,
{
    if n > 1 {
        lemma_sum_agrees(a, x, b, w, n - 1);
        assert(term(a, x, n - 1) == term(b, w, n - 1));
    }
}

/// A sum from whose column `from` on only the terms of columns `p` and `q`
/// may differ from 0 is the sum up to `from` plus these two terms, as far as
/// they are in it.
pub proof fn lemma_sum_tail(row: Seq<real>, x: Seq<real>, from: int, n: int, p: int, q: int)
    requires
        1 <= from <= n,
        from <= p,
        from <= q,
        p != q,
        forall|j: int| from <= j < n && j != p && j != q ==> #[trigger] term(row, x, j) == 0real,
    ensures
        weighted_sum(row, x, n) == weighted_sum(row, x, from) + (if p < n {
            term(row, x, p)
        } else {
            0real
        }) + (if q < n {
            term(row, x, q)
        } else {
            0real
        }),
    decreases n,
{
    if n > from {
        lemma_sum_tail(row, x, from, n - 1, p, q);
        if n - 1 != p && n - 1 != q {
            assert(term(row, x, n - 1) == 0real);
        }
    }
}

/// The part of a constraint's row that belongs to the model's variables
/// sums to the constraint's left-hand side.
pub proof fn lemma_structural_sum(
    row: Seq<real>,
    constraint: ConstraintView,
    names: Seq<Seq<char>>,
    x: Seq<real>,
    n: int,
)
    requires
        0 <= n <= names.len(),
        row[1] == 0real,
        forall|j: int| 2 <= j < 2 + n ==> #[trigger] row[j] == constraint.coefficient(names[j - 2]),
    ensures
        weighted_sum(row, x, 2 + n) == left_side(constraint, names, model_part(x, names.len()), n),
    decreases n,
{
    if n > 0 {
        lemma_structural_sum(row, constraint, names, x, n - 1);
        assert(row[1 + n] == constraint.coefficient(names[n - 1]));
        assert(model_part(x, names.len())[n - 1] == x[1 + n]);
        assert(term(row, x, 1 + n) == constraint.coefficient(names[n - 1]) * x[1 + n]);
    } else {
        assert(weighted_sum(row, x, 1) == 0real);
        assert(term(row, x, 1) == 0real);
    }
}

/// The row of the objective sums to the value of the objective's own
/// variable less the value of the objective.
pub proof fn lemma_objective_sum(variables: Seq<VariableView>, row: Seq<real>, x: Seq<real>, n: int)
    requires
        0 <= n <= variables.len(),
        row[1] == 1real,
        forall|j: int| 2 <= j < 2 + n ==> #[trigger] row[j] == -variables[j - 2].objective,
    ensures
        weighted_sum(row, x, 2 + n) == x[1] - objective_of(
            variables,
            model_part(x, variables.len()),
            n,
        ),
    decreases n,
{
    if n > 0 {
        lemma_objective_sum(variables, row, x, n - 1);
        let c = variables[n - 1].objective;
        let v = x[1 + n];
        assert(row[1 + n] == -c);
        assert(model_part(x, variables.len())[n - 1] == v);
        assert(term(row, x, 1 + n) == (-c) * v);
        assert((-c) * v == -(c * v)) by (nonlinear_arith);
    } else {
        assert(weighted_sum(row, x, 1) == 0real);
        assert(term(row, x, 1) == x[1]);
    }
}

/// The sum of the values of the artificial variables among the first `n`
/// columns.
pub open spec fn artificial_sum(artificial: Seq<bool>, x: Seq<real>, n: int) -> real
    decreases n,
{
    if n <= 0 {
        0real
    } else {
        artificial_sum(artificial, x, n - 1) + if artificial[n - 1] {
            x[n - 1]
        } else {
            0real
        }
    }
}

/// By how much the values `x` miss the equation of a row: the left-hand
/// side less the right-hand side.
pub open spec fn residual(row: Seq<real>, x: Seq<real>) -> real {
    weighted_sum(row, x, row.len() as int) - row[0]
}

/// The sum of the residuals of the rows of those among the first `count`
/// constraints that have an artificial variable.
pub open spec fn penalized_residuals(
    t: TableauView,
    constraints: Seq<ConstraintView>,
    x: Seq<real>,
    count: int,
) -> real
    decreases count,
{
    if count <= 0 {
        0real
    } else {
        penalized_residuals(t, constraints, x, count - 1) + if is_penalized(
            constraints[count - 1].relation,
        ) {
            residual(t.rows[count], x)
        } else {
            0real
        }
    }
}

/// The sum of the artificial values depends on the first `n` columns only.
pub proof fn lemma_artificial_sum_agrees(a: Seq<bool>, b: Seq<bool>, x: Seq<real>, w: Seq<real>, n: int)
    requires
        forall|j: int| 0 <= j < n ==> #[trigger] a[j] == b[j],
        forall|j: int| 0 <= j < n ==> #[trigger] x[j] == w[j],
    ensures
        artificial_sum(a, x, n) == artificial_sum(b, w, n),
    decreases n,
{
    if n > 0 {
        lemma_artificial_sum_agrees(a, b, x, w, n - 1);
        assert(a[n - 1] == b[n - 1]);
        assert(x[n - 1] == w[n - 1]);
    }
}

/// Where every artificial variable has the value 0, their values sum to 0.
pub proof fn lemma_artificial_sum_zero(artificial: Seq<bool>, x: Seq<real>, n: int)
    requires
        forall|j: int| 0 <= j < n && #[trigger] artificial[j] ==> x[j] == 0real,
    ensures
        artificial_sum(artificial, x, n) == 0real,
    decreases n,
{
    if n > 0 {
        lemma_artificial_sum_zero(artificial, x, n - 1);
        if artificial[n - 1] {
            assert(x[n - 1] == 0real);
        }
    }
}

/// Where the values meet the equations of the first `count` constraints'
/// rows, the residuals of these rows sum to 0.
pub proof fn lemma_penalized_residuals_zero(
    t: TableauView,
    constraints: Seq<ConstraintView>,
    x: Seq<real>,
    count: int,
)
    requires
        forall|r: int| 1 <= r <= count ==> satisfies(#[trigger] t.rows[r], x),
    ensures
        penalized_residuals(t, constraints, x, count) == 0real,
    decreases count,
{
    if count > 0 {
        lemma_penalized_residuals_zero(t, constraints, x, count - 1);
        assert(satisfies(t.rows[count], x));
    }
}

/// A row that is widened by zeros misses its equation by as much as before.
pub proof fn lemma_widened_residual(row: Seq<real>, wide: Seq<real>, x: Seq<real>)
    requires
        1 <= row.len() <= wide.len(),
        forall|j: int| 0 <= j < row.len() ==> #[trigger] wide[j] == row[j],
        forall|j: int| row.len() <= j < wide.len() ==> #[trigger] wide[j] == 0real,
    ensures
        residual(wide, x) == residual(row, x),
{
    let n = row.len() as int;
    let m = wide.len() as int;
    assert forall|j: int| n <= j < m implies #[trigger] term(wide, x, j) == 0real by {
        assert(wide[j] == 0real);
    }
    lemma_sum_tail(wide, x, n, m, m, m + 1);
    assert forall|j: int| 1 <= j < n implies #[trigger] term(wide, x, j) == term(row, x, j) by {
        assert(wide[j] == row[j]);
    }
    lemma_sum_agrees(wide, x, row, x, n);
}

/// Widening the rows by zeros does not change the sum of their residuals.
pub proof fn lemma_penalized_residuals_widened(
    t: TableauView,
    wide: TableauView,
    constraints: Seq<ConstraintView>,
    x: Seq<real>,
    count: int,
)
    requires
        t.wf(),
        count < t.rows.len() <= wide.rows.len(),
        forall|r: int|
            1 <= r <= count ==> (#[trigger] wide.rows[r]).len() >= t.cols() && (forall|j: int|
                0 <= j < t.cols() ==> wide.rows[r][j] == t.rows[r][j]) && (forall|j: int|
                t.cols() <= j < wide.rows[r].len() ==> wide.rows[r][j] == 0real),
    ensures
        penalized_residuals(wide, constraints, x, count) == penalized_residuals(
            t,
            constraints,
            x,
            count,
        ),
    decreases count,
{
    if count > 0 {
        lemma_penalized_residuals_widened(t, wide, constraints, x, count - 1);
        assert(t.rows[count].len() == t.cols());
        assert(wide.rows[count].len() >= t.cols());
        lemma_widened_residual(t.rows[count], wide.rows[count], x);
    }
}

/// What the equation of row 0 says: the objective's own variable has the
/// value of the objective, less the penalty for each unit of an artificial
/// variable, as far as the rows of the constraints with artificial
/// variables are met.
pub open spec fn objective_identity(
    t: TableauView,
    variables: Seq<VariableView>,
    constraints: Seq<ConstraintView>,
    count: int,
    x: Seq<real>,
) -> bool {
    residual(t.rows[0], x) == x[1] - objective_of(
        variables,
        model_part(x, variables.len()),
        variables.len() as int,
    ) + penalty() * artificial_sum(t.artificial, x, t.cols() as int) - penalty()
        * penalized_residuals(t, constraints, x, count)
}

/// Adding a constraint's row adds the value of its artificial variable, if
/// it has one, to the sum of the artificial values.
pub proof fn lemma_artificial_sum_step(t: TableauView, constraint: ConstraintView, x: Seq<real>)
    requires
        t.wf(),
    ensures
        artificial_sum(
            with_row(t, constraint).artificial,
            x,
            (t.cols() + auxiliary_columns(constraint.relation)) as int,
        ) == artificial_sum(t.artificial, x, t.cols() as int) + if is_penalized(constraint.relation) {
            x[t.cols() as int]
        } else {
            0real
        },
{
    let now = with_row(t, constraint);
    let cols = t.cols() as int;
    let extra = auxiliary_columns(constraint.relation) as int;
    assert forall|j: int| 0 <= j < cols implies #[trigger] now.artificial[j] == t.artificial[j] by {}
    lemma_artificial_sum_agrees(now.artificial, t.artificial, x, x, cols);
    assert(now.artificial[cols] == is_penalized(constraint.relation));
    assert(artificial_sum(now.artificial, x, cols + 1) == artificial_sum(now.artificial, x, cols) + if now.artificial[cols] {
        x[cols]
    } else {
        0real
    });
    if extra == 2 {
        assert(!now.artificial[cols + 1]);
        assert(artificial_sum(now.artificial, x, cols + 2) == artificial_sum(
            now.artificial,
            x,
            cols + 1,
        ));
    }
}

/// Row 0, widened and with the penalty in the column of a new artificial
/// variable, misses its equation by as much as before plus the penalty times
/// the variable's value.
pub proof fn lemma_marked_residual(t: TableauView, constraint: ConstraintView, x: Seq<real>)
    requires
        t.wf(),
    ensures
        residual(marked_row(t, constraint), x) == residual(t.rows[0], x) + if is_penalized(
            constraint.relation,
        ) {
            penalty() * x[t.cols() as int]
        } else {
            0real
        },
{
    let cols = t.cols() as int;
    let extra = auxiliary_columns(constraint.relation) as int;
    let wide = cols + extra;
    let marked = marked_row(t, constraint);
    let old0 = t.rows[0];
    assert(old0.len() == cols);
    assert(marked.len() == wide);
    assert forall|j: int| cols <= j < wide && j != cols implies #[trigger] term(marked, x, j)
        == 0real by {
        assert(marked[j] == 0real);
    }
    lemma_sum_tail(marked, x, cols, wide, cols, wide);
    assert forall|j: int| 1 <= j < cols implies #[trigger] term(marked, x, j) == term(old0, x, j) by {
        assert(marked[j] == old0[j]);
    }
    lemma_sum_agrees(marked, x, old0, x, cols);
    assert(marked[0] == old0[0]);
    if is_penalized(constraint.relation) {
        assert(marked[cols] == penalty());
    } else {
        assert(marked[cols] == 0real);
        assert(term(marked, x, cols) == 0real);
    }
}

/// Row 0 less the penalty times a constraint's row misses its equation by
/// what it missed it before less the penalty times what the constraint's
/// row misses.
pub proof fn lemma_folded_residual(marked: Seq<real>, row: Seq<real>, x: Seq<real>)
    requires
        marked.len() == row.len(),
        marked.len() >= 1,
    ensures
        residual(penalized_row(marked, row), x) == residual(marked, x) - penalty() * residual(
            row,
            x,
        ),
{
    let folded = penalized_row(marked, row);
    let m = penalty();
    let k = -m;
    let n = marked.len() as int;
    assert forall|j: int| 0 <= j < n implies #[trigger] folded[j] == marked[j] + k * row[j] by {
        let e = row[j];
        assert(marked[j] - m * e == marked[j] + (-m) * e) by (nonlinear_arith);
    }
    lemma_weighted_sum_linear(folded, marked, row, k, x, n);
    let s = weighted_sum(row, x, n);
    let b = row[0];
    assert(folded[0] == marked[0] + k * b);
    assert(k * s - k * b == -(m * (s - b))) by (nonlinear_arith)
        requires
            k == -m,
    ;
}

/// Adding a constraint's row adds what the row misses, if the constraint
/// has an artificial variable, to the sum of the residuals.
pub proof fn lemma_penalized_residuals_step(
    t: TableauView,
    constraints: Seq<ConstraintView>,
    count: nat,
    x: Seq<real>,
)
    requires
        t.wf(),
        t.rows.len() == count + 1,
        count < constraints.len(),
    ensures
        penalized_residuals(with_row(t, constraints[count as int]), constraints, x, count as int + 1)
            == penalized_residuals(t, constraints, x, count as int) + if is_penalized(
            constraints[count as int].relation,
        ) {
            residual(constraint_row(t.names, constraints[count as int], t.cols()), x)
        } else {
            0real
        },
{
    let constraint = constraints[count as int];
    let now = with_row(t, constraint);
    let cols = t.cols() as int;
    assert(now.rows[count as int + 1] == constraint_row(t.names, constraint, t.cols()));
    assert forall|r: int| 1 <= r <= count implies (#[trigger] now.rows[r]).len() >= t.cols() && (
    forall|j: int| 0 <= j < t.cols() ==> now.rows[r][j] == t.rows[r][j]) && (forall|j: int|
        t.cols() <= j < now.rows[r].len() ==> now.rows[r][j] == 0real) by {
        assert(t.rows[r].len() == cols);
    }
    lemma_penalized_residuals_widened(t, now, constraints, x, count as int);
}

/// The equation of row 0 says in every tableau of a model what
/// `objective_identity` states.
pub proof fn lemma_objective_identity(
    variables: Seq<VariableView>,
    constraints: Seq<ConstraintView>,
    count: nat,
    x: Seq<real>,
)
    requires
        count <= constraints.len(),
        tableau_of(variables, constraints, count) is Some,
    ensures
        objective_identity(
            tableau_of(variables, constraints, count).unwrap(),
            variables,
            constraints,
            count as int,
            x,
        ),
    decreases count,
{
    let n = variables.len() as int;
    let now = tableau_of(variables, constraints, count).unwrap();
    let base = x[1] - objective_of(variables, model_part(x, variables.len()), n);
    let m = penalty();
    if count == 0 {
        let row = objective_row(variables);
        assert(now.rows[0] == row);
        lemma_objective_sum(variables, row, x, n);
        assert forall|j: int| 0 <= j < now.cols() && #[trigger] now.artificial[j] implies x[j]
            == 0real by {}
        lemma_artificial_sum_zero(now.artificial, x, now.cols() as int);
        assert(m * 0real == 0real);
    } else {
        let t = tableau_of(variables, constraints, (count - 1) as nat).unwrap();
        let constraint = constraints[count - 1];
        lemma_objective_identity(variables, constraints, (count - 1) as nat, x);
        lemma_tableau_of_built(variables, constraints, (count - 1) as nat);
        assert(now == with_row(t, constraint));
        let cols = t.cols() as int;
        let row = constraint_row(t.names, constraint, t.cols());
        let marked = marked_row(t, constraint);
        assert(t.rows[0].len() == cols);
        assert(now.cols() == cols + auxiliary_columns(constraint.relation));
        lemma_artificial_sum_step(t, constraint, x);
        lemma_marked_residual(t, constraint, x);
        lemma_penalized_residuals_step(t, constraints, (count - 1) as nat, x);
        let a = artificial_sum(t.artificial, x, cols);
        let p = penalized_residuals(t, constraints, x, count - 1);
        let v = x[cols];
        let res = residual(row, x);
        assert(residual(t.rows[0], x) == base + m * a - m * p);
        if is_penalized(constraint.relation) {
            lemma_folded_residual(marked, row, x);
            assert(now.rows[0] == penalized_row(marked, row));
            assert(residual(now.rows[0], x) == base + m * a - m * p + m * v - m * res);
            assert(base + m * a - m * p + m * v - m * res == base + m * (a + v) - m * (p + res))
                by (nonlinear_arith);
        } else {
            assert(now.rows[0] == marked);
        }
    }
}

/// Values of all columns that meet the equations of a model's tableau, are
/// not negative and leave every artificial variable at 0 give the model's
/// variables admissible values, and the objective's own variable the value
/// of the objective.
pub proof fn lemma_solution_is_admissible(model: ModelView, x: Seq<real>)
    requires
        model_tableau(model) is Some,
        x.len() == model_tableau(model).unwrap().cols(),
        solves(model_tableau(model).unwrap(), x),
        non_negative(x),
        forall|j: int|
            0 <= j < x.len() && #[trigger] model_tableau(model).unwrap().artificial[j] ==> x[j]
                == 0real,
    ensures
        admissible(model, model_part(x, model.variables.len())),
        x[1] == objective_of(
            model.variables,
            model_part(x, model.variables.len()),
            model.variables.len() as int,
        ),
{
    let variables = model.variables;
    let constraints = model.constraints;
    let count = constraints.len();
    let t = model_tableau(model).unwrap();
    let names = variable_names(variables);
    let n = variables.len() as int;
    let cols = t.cols() as int;
    let y = model_part(x, variables.len());
    lemma_tableau_of_built(variables, constraints, count);
    lemma_objective_identity(variables, constraints, count, x);
    assert forall|r: int| 1 <= r <= count implies satisfies(#[trigger] t.rows[r], x) by {}
    lemma_penalized_residuals_zero(t, constraints, x, count as int);
    lemma_artificial_sum_zero(t.artificial, x, cols);
    assert(satisfies(t.rows[0], x));
    assert(penalty() * 0real == 0real);
    assert forall|j: int| 0 <= j < y.len() implies #[trigger] y[j] >= 0real by {
        assert(x[j + 2] >= 0real);
    }
    assert forall|k: int| 0 <= k < constraints.len() implies holds(
        #[trigger] constraints[k],
        names,
        y,
    ) by {
        let r = k + 1;
        let constraint = constraints[k];
        let row = t.rows[r];
        let p = t.basic[r];
        let q = p + 1;
        assert(row_holds(t, r, constraints[r - 1]));
        assert(satisfies(row, x));
        assert(row.len() == cols);
        assert(t.rows[r][t.basic[0]] == 0real);
        lemma_structural_sum(row, constraint, names, x, n);
        assert forall|j: int| 2 + n <= j < cols && j != p && j != q implies #[trigger] term(row, x, j)
            == 0real by {
            assert(row[j] == 0real);
        }
        lemma_sum_tail(row, x, 2 + n, cols, p, q);
        assert(row[p] == 1real);
        assert(term(row, x, p) == x[p]);
        assert(x[p] >= 0real);
        if auxiliary_columns(constraint.relation) == 2 {
            assert(row[q] == -1real);
            assert(term(row, x, q) == -x[q]);
            assert(x[q] >= 0real);
        } else if q < cols {
            assert(row[q] == 0real);
            assert(term(row, x, q) == 0real);
        }
        if is_penalized(constraint.relation) {
            assert(t.artificial[p]);
            assert(x[p] == 0real);
        }
    }
}

/// The values of all columns that go with the values `y` of the model's
/// variables in the tableau of the first `count` constraints: the value of
/// the objective for the objective's own variable, what is left to the
/// right-hand side for a slack variable, 0 for an artificial variable, and
/// what is above the right-hand side for a surplus variable.
pub open spec fn extended(
    variables: Seq<VariableView>,
    constraints: Seq<ConstraintView>,
    y: Seq<real>,
    count: nat,
) -> Seq<real>
    decreases count,
{
    if count == 0 {
        seq![0real, objective_of(variables, y, variables.len() as int)] + y
    } else {
        let before = extended(variables, constraints, y, (count - 1) as nat);
        let constraint = constraints[count - 1];
        let left = left_side(constraint, variable_names(variables), y, variables.len() as int);
        match constraint.relation {
            Relation::LessThan(rhs) => before.push(rhs - left),
            Relation::Equals(_) => before.push(0real),
            Relation::GreaterThan(rhs) => before.push(0real).push(left - rhs),
        }
    }
}

/// The row of a constraint sums to the constraint's left-hand side, plus the
/// value of its slack or artificial variable, less the value of its surplus
/// variable.
pub proof fn lemma_constraint_row_sum(
    names: Seq<Seq<char>>,
    constraint: ConstraintView,
    cols: nat,
    x: Seq<real>,
)
    requires
        2 + names.len() <= cols,
    ensures
        weighted_sum(
            constraint_row(names, constraint, cols),
            x,
            (cols + auxiliary_columns(constraint.relation)) as int,
        ) == left_side(constraint, names, model_part(x, names.len()), names.len() as int)
            + x[cols as int] - if auxiliary_columns(constraint.relation) == 2 {
            x[cols as int + 1]
        } else {
            0real
        },
{
    let row = constraint_row(names, constraint, cols);
    let n = names.len() as int;
    let wide = (cols + auxiliary_columns(constraint.relation)) as int;
    let p = cols as int;
    let q = cols as int + 1;
    lemma_structural_sum(row, constraint, names, x, n);
    assert forall|j: int| 2 + n <= j < wide && j != p && j != q implies #[trigger] term(row, x, j)
        == 0real by {
        assert(row[j] == 0real);
    }
    lemma_sum_tail(row, x, 2 + n, wide, p, q);
    assert(row[p] == 1real);
    assert(term(row, x, p) == x[p]);
    if auxiliary_columns(constraint.relation) == 2 {
        assert(row[q] == -1real);
        assert(term(row, x, q) == -x[q]);
    }
}

/// What holds of the extended values: there is one for each column, the
/// model's variables have the values `y`, none is negative, the artificial
/// variables are at 0, and the equation of every constraint's row is met.
pub open spec fn extends(
    t: TableauView,
    variables: Seq<VariableView>,
    y: Seq<real>,
    count: nat,
    x: Seq<real>,
) -> bool {
    &&& x.len() == t.cols()
    &&& x[1] == objective_of(variables, y, variables.len() as int)
    &&& model_part(x, variables.len()) == y
    &&& non_negative(x)
    &&& forall|j: int| 0 <= j < x.len() && #[trigger] t.artificial[j] ==> x[j] == 0real
    &&& forall|r: int| 1 <= r <= count ==> satisfies(#[trigger] t.rows[r], x)
}

/// Admissible values of the model's variables extend to values of all
/// columns of which `extends` holds.
pub proof fn lemma_extended(
    variables: Seq<VariableView>,
    constraints: Seq<ConstraintView>,
    y: Seq<real>,
    count: nat,
)
    requires
        count <= constraints.len(),
        tableau_of(variables, constraints, count) is Some,
        y.len() == variables.len(),
        forall|j: int| 0 <= j < y.len() ==> #[trigger] y[j] >= 0real,
        forall|k: int|
            0 <= k < count ==> holds(#[trigger] constraints[k], variable_names(variables), y),
    ensures
        extends(
            tableau_of(variables, constraints, count).unwrap(),
            variables,
            y,
            count,
            extended(variables, constraints, y, count),
        ),
    decreases count,
{
    let now = tableau_of(variables, constraints, count).unwrap();
    let x = extended(variables, constraints, y, count);
    let n = variables.len();
    let names = variable_names(variables);
    if count == 0 {
        assert(now.rows[0].len() == n + 2);
        assert(model_part(x, n) =~= y);
        assert forall|j: int| 2 <= j < x.len() implies #[trigger] x[j] >= 0real by {
            assert(x[j] == y[j - 2]);
        }
    } else {
        let t = tableau_of(variables, constraints, (count - 1) as nat).unwrap();
        let before = extended(variables, constraints, y, (count - 1) as nat);
        let constraint = constraints[count - 1];
        lemma_extended(variables, constraints, y, (count - 1) as nat);
        lemma_tableau_of_built(variables, constraints, (count - 1) as nat);
        assert(now == with_row(t, constraint));
        let cols = t.cols() as int;
        let extra = auxiliary_columns(constraint.relation) as int;
        let row = constraint_row(t.names, constraint, t.cols());
        let left = left_side(constraint, names, y, n as int);
        assert(t.rows[0].len() == cols);
        assert(now.rows[0].len() == cols + extra);
        assert(now.cols() == cols + extra);
        assert(x.len() == cols + extra);
        assert(forall|j: int| 0 <= j < cols ==> x[j] == before[j]);
        assert(model_part(x, n) =~= y) by {
            assert(model_part(before, n) == y);
            assert forall|j: int| 0 <= j < n implies model_part(x, n)[j] == y[j] by {
                assert(model_part(before, n)[j] == before[j + 2]);
            }
        }
        assert(holds(constraints[count - 1], names, y));
        assert forall|j: int| 2 <= j < x.len() implies #[trigger] x[j] >= 0real by {
            if j < cols {
                assert(before[j] >= 0real);
            }
        }
        assert forall|j: int| 0 <= j < x.len() && #[trigger] now.artificial[j] implies x[j]
            == 0real by {
            if j < cols {
                assert(now.artificial[j] == t.artificial[j]);
                assert(t.artificial[j]);
            }
        }
        assert forall|r: int| 1 <= r <= count implies satisfies(#[trigger] now.rows[r], x) by {
            if r < count {
                let narrow = t.rows[r];
                assert(satisfies(narrow, before));
                assert(narrow.len() == cols);
                lemma_widened_residual(narrow, now.rows[r], x);
                assert forall|j: int| 1 <= j < cols implies #[trigger] term(narrow, x, j) == term(
                    narrow,
                    before,
                    j,
                ) by {}
                lemma_sum_agrees(narrow, x, narrow, before, cols);
            } else {
                assert(now.rows[r] == row);
                assert(row.len() == cols + extra);
                lemma_constraint_row_sum(t.names, constraint, t.cols(), x);
            }
        }
    }
}

/// Admissible values of the model's variables extend to values of all
/// columns that meet every equation of the model's tableau, that of the
/// objective too, and are not negative.
pub proof fn lemma_admissible_solves(model: ModelView, y: Seq<real>)
    requires
        model_tableau(model) is Some,
        admissible(model, y),
    ensures
        extended(model.variables, model.constraints, y, model.constraints.len()).len()
            == model_tableau(model).unwrap().cols(),
        solves(
            model_tableau(model).unwrap(),
            extended(model.variables, model.constraints, y, model.constraints.len()),
        ),
        non_negative(extended(model.variables, model.constraints, y, model.constraints.len())),
        extended(model.variables, model.constraints, y, model.constraints.len())[1] == objective_of(
            model.variables,
            y,
            model.variables.len() as int,
        ),
{
    let variables = model.variables;
    let constraints = model.constraints;
    let count = constraints.len();
    let t = model_tableau(model).unwrap();
    let x = extended(variables, constraints, y, count);
    lemma_extended(variables, constraints, y, count);
    lemma_tableau_of_built(variables, constraints, count);
    lemma_objective_identity(variables, constraints, count, x);
    lemma_penalized_residuals_zero(t, constraints, x, count as int);
    lemma_artificial_sum_zero(t.artificial, x, t.cols() as int);
    assert(penalty() * 0real == 0real);
    assert(satisfies(t.rows[0], x));
}

/// No admissible values of the model's variables give the objective more
/// than the optimum that a run reports.
pub proof fn lemma_optimum_is_greatest(model: ModelView, fuel: nat, y: Seq<real>)
    requires
        model_tableau(model) is Some,
        run(model_tableau(model).unwrap(), fuel) is Optimal,
        admissible(model, y),
    ensures
        objective_of(model.variables, y, model.variables.len() as int) <= run(
            model_tableau(model).unwrap(),
            fuel,
        )->Optimal_0,
{
    let start = model_tableau(model).unwrap();
    let x = extended(model.variables, model.constraints, y, model.constraints.len());
    lemma_admissible_solves(model, y);
    lemma_tableau_of_built(model.variables, model.constraints, model.constraints.len());
    lemma_optimum_is_upper_limit(start, fuel, x);
}

/// The values that the model's variables have in the basic solution of a
/// tableau.
pub open spec fn model_values(t: TableauView) -> Seq<real> {
    model_part(basic_solution(t), t.names.len())
}

/// Where a run from a feasible start reports an optimum, the values that
/// the model's variables have at rest are admissible and give the objective
/// exactly the optimum.
pub proof fn lemma_optimum_is_taken(model: ModelView, fuel: nat)
    requires
        model_tableau(model) is Some,
        feasible(model_tableau(model).unwrap()),
        run(model_tableau(model).unwrap(), fuel) is Optimal,
    ensures
        admissible(model, model_values(last_tableau(model_tableau(model).unwrap(), fuel))),
        objective_of(
            model.variables,
            model_values(last_tableau(model_tableau(model).unwrap(), fuel)),
            model.variables.len() as int,
        ) == run(model_tableau(model).unwrap(), fuel)->Optimal_0,
{
    let start = model_tableau(model).unwrap();
    let rest = last_tableau(start, fuel);
    let x = basic_solution(rest);
    lemma_tableau_of_built(model.variables, model.constraints, model.constraints.len());
    let pivots = lemma_last_tableau_advanced(start, fuel);
    lemma_advanced(start, pivots);
    lemma_optimum_at_rest(start, fuel);
    lemma_basic_solution_solves(rest);
    lemma_basic_solution_objective(rest);
    lemma_basic_solution_non_negative(rest);
    assert(solves(start, x));
    assert forall|j: int| 0 <= j < x.len() && #[trigger] start.artificial[j] implies x[j]
        == 0real by {
        if is_basic(rest, j) {
            let r = choose|r: int| is_basic_row(rest, r, j);
            assert(rest.basic[r] == j);
            assert(r != 0);
            assert(!is_residual(rest, r));
            assert(rest.rows[r][0] >= 0real);
        }
    }
    lemma_solution_is_admissible(model, x);
    assert(rest.names.len() == model.variables.len());
}

/// Whether no value exceeds the upper bound of its variable.
pub open spec fn within_bounds(variables: Seq<VariableView>, y: Seq<real>) -> bool {
    forall|i: int|
        0 <= i < variables.len() && (#[trigger] variables[i]).upper_bound is Some ==> y[i]
            <= variables[i].upper_bound.unwrap()
}

/// Whether the values `y` meet the model as its author wrote it: they are
/// admissible and within the upper bounds.
pub open spec fn meets(model: ModelView, y: Seq<real>) -> bool {
    admissible(model, y) && within_bounds(model.variables, y)
}

/// Whether no constraint bears the name that the bound constraint of a
/// variable with an upper bound gets. Such a constraint would give way to
/// the bound constraint.
pub open spec fn bound_names_are_free(model: ModelView) -> bool {
    forall|k: int, i: int|
        0 <= k < model.constraints.len() && 0 <= i < model.variables.len() && (
        #[trigger] model.variables[i]).upper_bound is Some ==> (#[trigger] model.constraints[k]).name
            != bound_name(model.variables[i].name)
}

/// A constraint multiplied by -1 has the negated left-hand side.
pub proof fn lemma_left_side_negated(
    constraint: ConstraintView,
    names: Seq<Seq<char>>,
    y: Seq<real>,
    n: int,
)
    ensures
        left_side(constraint.negated(), names, y, n) == -left_side(constraint, names, y, n),
    decreases n,
{
    if n > 0 {
        lemma_left_side_negated(constraint, names, y, n - 1);
        let a = constraint.coefficient(names[n - 1]);
        let v = y[n - 1];
        assert(constraint.negated().coefficient(names[n - 1]) == -a);
        assert((-a) * v == -(a * v)) by (nonlinear_arith);
    }
}

/// Values meet a constraint exactly if they meet it after it was brought to
/// a right-hand side that is not negative.
pub proof fn lemma_normalized_holds(constraint: ConstraintView, names: Seq<Seq<char>>, y: Seq<real>)
    ensures
        holds(constraint.normalized(), names, y) == holds(constraint, names, y),
{
    lemma_left_side_negated(constraint, names, y, names.len() as int);
}

/// The left-hand side of a variable's bound constraint is the variable's
/// value.
pub proof fn lemma_bound_left_side(
    names: Seq<Seq<char>>,
    i: int,
    upper: real,
    y: Seq<real>,
    n: int,
)
    requires
        names.no_duplicates(),
        0 <= i < names.len(),
        0 <= n <= names.len(),
    ensures
        left_side(bound_constraint(names[i], upper), names, y, n) == if i < n {
            y[i]
        } else {
            0real
        },
    decreases n,
{
    if n > 0 {
        lemma_bound_left_side(names, i, upper, y, n - 1);
        let constraint = bound_constraint(names[i], upper);
        let v = y[n - 1];
        if n - 1 == i {
            assert(constraint.coefficient(names[n - 1]) == 1real);
            assert(1real * v == v);
        } else {
            assert(names[n - 1] != names[i]);
            assert(constraint.coefficient(names[n - 1]) == 0real);
            assert(0real * v == 0real);
        }
    }
}

/// Every constraint of the list with the bound constraints added is one of
/// the list or the bound constraint of a variable.
pub proof fn lemma_bounded_members(
    constraints: Seq<ConstraintView>,
    variables: Seq<VariableView>,
    count: nat,
    k: int,
)
    requires
        count <= variables.len(),
        0 <= k < bounded(constraints, variables, count).len(),
    ensures
        (exists|j: int|
            0 <= j < constraints.len() && #[trigger] constraints[j] == bounded(
                constraints,
                variables,
                count,
            )[k]) || (exists|i: int|
            0 <= i < count && (#[trigger] variables[i]).upper_bound is Some && bounded(
                constraints,
                variables,
                count,
            )[k] == bound_constraint(variables[i].name, variables[i].upper_bound.unwrap())),
    decreases count,
{
    if count == 0 {
        assert(constraints[k] == bounded(constraints, variables, count)[k]);
    } else {
        let before = bounded(constraints, variables, (count - 1) as nat);
        let after = bounded(constraints, variables, count);
        let v = variables[count - 1];
        match v.upper_bound {
            Some(upper) => {
                let added = bound_constraint(v.name, upper);
                let names = constraint_names(before);
                let replaced = names.contains(added.name) && k == names.index_of(added.name);
                if replaced || k >= before.len() {
                    assert(after[k] == added);
                    assert(variables[count - 1].upper_bound is Some);
                } else {
                    assert(after[k] == before[k]);
                    lemma_bounded_members(constraints, variables, (count - 1) as nat, k);
                }
            },
            None => {
                lemma_bounded_members(constraints, variables, (count - 1) as nat, k);
            },
        }
    }
}

/// A constraint that bears no bound constraint's name keeps its place when
/// the bound constraints are added.
pub proof fn lemma_bounded_keeps(
    constraints: Seq<ConstraintView>,
    variables: Seq<VariableView>,
    count: nat,
    k: int,
)
    requires
        constraint_names(constraints).no_duplicates(),
        variable_names(variables).no_duplicates(),
        count <= variables.len(),
        0 <= k < constraints.len(),
        forall|i: int|
            0 <= i < variables.len() && (#[trigger] variables[i]).upper_bound is Some
                ==> constraints[k].name != bound_name(variables[i].name),
    ensures
        k < bounded(constraints, variables, count).len(),
        bounded(constraints, variables, count)[k] == constraints[k],
    decreases count,
{
    if count > 0 {
        lemma_bounded_keeps(constraints, variables, (count - 1) as nat, k);
        lemma_bounded(constraints, variables, (count - 1) as nat, 0);
        let before = bounded(constraints, variables, (count - 1) as nat);
        let v = variables[count - 1];
        match v.upper_bound {
            Some(upper) => {
                lemma_with_constraint(before, bound_constraint(v.name, upper));
                assert(variables[count - 1].upper_bound is Some);
                assert(before[k].name != bound_name(v.name));
            },
            None => {},
        }
    }
}

/// Where no constraint bears the name of a bound constraint, values are
/// admissible for the preprocessed model exactly if they meet the model as
/// its author wrote it.
pub proof fn lemma_preprocessed_admissible(model: ModelView, y: Seq<real>)
    requires
        model.wf(),
        bound_names_are_free(model),
    ensures
        admissible(preprocessed(model), y) == meets(model, y),
{
    let variables = model.variables;
    let names = variable_names(variables);
    let start = normalized_constraints(model.constraints);
    let all = preprocessed(model).constraints;
    let count = variables.len();
    assert(constraint_names(start) =~= constraint_names(model.constraints));
    if meets(model, y) {
        assert forall|k: int| 0 <= k < all.len() implies holds(#[trigger] all[k], names, y) by {
            lemma_bounded_members(start, variables, count, k);
            if exists|j: int| 0 <= j < start.len() && #[trigger] start[j] == all[k] {
                let j = choose|j: int| 0 <= j < start.len() && #[trigger] start[j] == all[k];
                assert(holds(model.constraints[j], names, y));
                lemma_normalized_holds(model.constraints[j], names, y);
            } else {
                let i = choose|i: int|
                    0 <= i < count && (#[trigger] variables[i]).upper_bound is Some && all[k]
                        == bound_constraint(variables[i].name, variables[i].upper_bound.unwrap());
                assert(names[i] == variables[i].name);
                lemma_bound_left_side(
                    names,
                    i,
                    variables[i].upper_bound.unwrap(),
                    y,
                    names.len() as int,
                );
            }
        }
    }
    if admissible(preprocessed(model), y) {
        assert forall|k: int| 0 <= k < model.constraints.len() implies holds(
            #[trigger] model.constraints[k],
            names,
            y,
        ) by {
            assert forall|i: int|
                0 <= i < variables.len() && (#[trigger] variables[i]).upper_bound is Some implies start[k].name
                != bound_name(variables[i].name) by {
                assert(model.constraints[k].name != bound_name(variables[i].name));
            }
            lemma_bounded_keeps(start, variables, count, k);
            assert(holds(all[k], names, y));
            lemma_normalized_holds(model.constraints[k], names, y);
        }
        assert forall|i: int|
            0 <= i < variables.len() && (#[trigger] variables[i]).upper_bound is Some implies y[i]
            <= variables[i].upper_bound.unwrap() by {
            lemma_bounded(start, variables, count, i);
            let wanted = bound_constraint(variables[i].name, variables[i].upper_bound.unwrap());
            let k = choose|k: int| 0 <= k < all.len() && #[trigger] all[k] == wanted;
            assert(holds(all[k], names, y));
            assert(names[i] == variables[i].name);
            lemma_bound_left_side(names, i, variables[i].upper_bound.unwrap(), y, names.len() as int);
        }
    }
}

/// What a solver reports as the optimum of a model is its greatest value:
/// no values that meet the model give the objective more.
pub proof fn lemma_solved_optimum_is_greatest(model: ModelView, limit: nat, y: Seq<real>)
    requires
        model.wf(),
        bound_names_are_free(model),
        model_tableau(preprocessed(model)) is Some,
        run(model_tableau(preprocessed(model)).unwrap(), limit) is Optimal,
        meets(model, y),
    ensures
        objective_of(model.variables, y, model.variables.len() as int) <= run(
            model_tableau(preprocessed(model)).unwrap(),
            limit,
        )->Optimal_0,
{
    lemma_preprocessed_admissible(model, y);
    lemma_optimum_is_greatest(preprocessed(model), limit, y);
}

/// What a solver reports as the optimum of a model is taken: the values
/// that the model's variables have when the solver comes to rest meet the
/// model and give the objective exactly the optimum. This holds of every
/// model whose upper bounds are not negative.
pub proof fn lemma_solved_optimum_is_taken(model: ModelView, limit: nat)
    requires
        model.wf(),
        bound_names_are_free(model),
        forall|k: int|
            0 <= k < model.variables.len() && (#[trigger] model.variables[k]).upper_bound is Some
                ==> model.variables[k].upper_bound.unwrap() >= 0real,
        model_tableau(preprocessed(model)) is Some,
        run(model_tableau(preprocessed(model)).unwrap(), limit) is Optimal,
    ensures
        meets(
            model,
            model_values(last_tableau(model_tableau(preprocessed(model)).unwrap(), limit)),
        ),
        objective_of(
            model.variables,
            model_values(last_tableau(model_tableau(preprocessed(model)).unwrap(), limit)),
            model.variables.len() as int,
        ) == run(model_tableau(preprocessed(model)).unwrap(), limit)->Optimal_0,
{
    lemma_start_is_feasible(model);
    lemma_optimum_is_taken(preprocessed(model), limit);
    lemma_preprocessed_admissible(
        model,
        model_values(last_tableau(model_tableau(preprocessed(model)).unwrap(), limit)),
    );
}

} // verus!
