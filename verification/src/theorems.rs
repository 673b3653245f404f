//! What holds of the simplex method as this library runs it.

use crate::model::{bounded, normalized_constraints, preprocessed, ConstraintView, ModelView, VariableView};
use crate::simplex::{
    eligible, entering, has_eligible, is_entering, is_infeasible, is_leaving, is_residual, leaving,
    pivoted, ratio, run, step, Outcome, OutcomeView, StepView,
};
use crate::tableau::{initial_tableau, model_tableau, TableauView};
use vstd::prelude::*;

verus! {

/// What solving a model with at most `limit` pivots gives, or `None` if the
/// model has no tableau.
pub open spec fn solution(model: ModelView, limit: nat) -> Option<OutcomeView> {
    match model_tableau(preprocessed(model)) {
        Some(t) => Some(run(t, limit)),
        None => None,
    }
}

/// Whether the optimum that an outcome carries is a value as the library
/// holds it.
pub open spec fn is_held(outcome: Outcome) -> bool {
    match outcome {
        Outcome::Optimal(v) => v.lowest_terms(),
        _ => true,
    }
}

/// Two runs on the same model end the same way, and where they reach an
/// optimum they report the same value, numerator by numerator and
/// denominator by denominator.
pub proof fn lemma_runs_agree(model: ModelView, limit: nat, first: Outcome, second: Outcome)
    requires
        solution(model, limit) == Some(first@),
        solution(model, limit) == Some(second@),
        is_held(first),
        is_held(second),
    ensures
        first == second,
{
    match (first, second) {
        (Outcome::Optimal(a), Outcome::Optimal(b)) => {
            a.lemma_equal_values_are_identical(b);
        },
        _ => {},
    }
}

/// Where a column of row 0 is negative and the entering column has no
/// positive entry in any constraint's row, the method reports that the
/// objective is unbounded.
pub proof fn lemma_unbounded(t: TableauView, fuel: nat)
    requires
        fuel > 0,
        t.has_negative_reduced_cost(),
        forall|r: int| 1 <= r < t.rows.len() ==> (#[trigger] t.rows[r])[entering(t)] <= 0real,
    ensures
        run(t, fuel) == OutcomeView::Unbounded,
{
    let c = entering(t);
    assert forall|r: int| !eligible(t, r, c) by {
        if 1 <= r < t.rows.len() {
            assert(t.rows[r][c] <= 0real);
        }
    }
}

/// A model without constraints and upper bounds, in which no variable can
/// raise the objective, is solved at once: the objective is 0.
pub proof fn lemma_nothing_to_gain(model: ModelView, limit: nat)
    requires
        model.constraints.len() == 0,
        forall|i: int|
            0 <= i < model.variables.len() ==> (#[trigger] model.variables[i]).upper_bound is None
                && model.variables[i].objective <= 0real,
    ensures
        solution(model, limit) == Some(OutcomeView::Optimal(0real)),
{
    let variables = model.variables;
    let start = normalized_constraints(model.constraints);
    assert(start.len() == 0);
    lemma_no_bounds(start, variables, variables.len());
    let t = initial_tableau(variables);
    assert(model_tableau(preprocessed(model)) == Some(t));
    assert(!t.has_negative_reduced_cost()) by {
        assert forall|j: int| 2 <= j < t.cols() implies !(#[trigger] t.rows[0][j] < 0real) by {
            assert(variables[j - 2].objective <= 0real);
        }
    }
    assert(!is_infeasible(t)) by {
        assert forall|r: int| !is_residual(t, r) by {}
    }
}

/// Variables without upper bounds add no constraints.
proof fn lemma_no_bounds(
    constraints: Seq<ConstraintView>,
    variables: Seq<VariableView>,
    count: nat,
)
    requires
        count <= variables.len(),
        forall|i: int| 0 <= i < variables.len() ==> (#[trigger] variables[i]).upper_bound is None,
    ensures
        bounded(constraints, variables, count) == constraints,
    decreases count,
{
    if count > 0 {
        lemma_no_bounds(constraints, variables, (count - 1) as nat);
        assert(variables[count - 1].upper_bound is None);
    }
}

/// Whether the basic solution of a tableau is feasible: no right-hand side
/// of a constraint's row is negative.
pub open spec fn feasible(t: TableauView) -> bool {
    forall|r: int| 1 <= r < t.rows.len() ==> (#[trigger] t.rows[r])[0] >= 0real
}

/// A pivot keeps the shape of a tableau.
pub proof fn lemma_pivoted_wf(t: TableauView, r: int, c: int)
    requires
        t.wf(),
        0 <= r < t.rows.len(),
        0 <= c < t.cols(),
    ensures
        pivoted(t, r, c).wf(),
        pivoted(t, r, c).rows.len() == t.rows.len(),
        pivoted(t, r, c).cols() == t.cols(),
{
    let next = pivoted(t, r, c);
    assert(t.rows[r].len() == t.cols());
    assert(t.rows[0].len() == t.cols());
    assert forall|i: int| 0 <= i < next.rows.len() implies (#[trigger] next.rows[i]).len()
        == t.cols() by {
        assert(t.rows[i].len() == t.cols());
    }
    assert forall|i: int| 0 <= i < next.basic.len() implies 0 <= #[trigger] next.basic[i]
        < next.cols() by {
        if i != r {
            assert(next.basic[i] == t.basic[i]);
        }
    }
}

/// A pivot on a positive entry, in a column that is negative in row 0 and on
/// a row whose right-hand side is not negative, does not lower the value of
/// the objective. So the negated value, which is what an equivalent
/// minimization reports, never rises.
pub proof fn lemma_pivot_keeps_objective(t: TableauView, r: int, c: int)
    requires
        t.wf(),
        1 <= r < t.rows.len(),
        0 <= c < t.cols(),
        t.rows[0][c] <= 0real,
        t.rows[r][c] > 0real,
        t.rows[r][0] >= 0real,
    ensures
        pivoted(t, r, c).rows[0][0] >= t.rows[0][0],
        -pivoted(t, r, c).rows[0][0] <= -t.rows[0][0],
{
    let a = t.rows[0][0];
    let b = t.rows[0][c];
    let p = t.rows[r][c];
    let q = t.rows[r][0];
    assert(t.rows[0].len() == t.cols());
    assert(t.rows[r].len() == t.cols());
    assert(pivoted(t, r, c).rows[0][0] == a - b * (q / p));
    assert(a - b * (q / p) >= a) by (nonlinear_arith)
        requires
            b <= 0real,
            p > 0real,
            q >= 0real,
    ;
}

/// A pivot on the leaving row keeps the basic solution feasible.
pub proof fn lemma_pivot_keeps_feasible(t: TableauView, r: int, c: int)
    requires
        t.wf(),
        feasible(t),
        0 <= c < t.cols(),
        is_leaving(t, r, c),
    ensures
        feasible(pivoted(t, r, c)),
{
    let next = pivoted(t, r, c);
    let p = t.rows[r][c];
    let q = t.rows[r][0];
    assert(t.rows[r].len() == t.cols());
    assert(q >= 0real);
    assert forall|i: int| 1 <= i < next.rows.len() implies (#[trigger] next.rows[i])[0] >= 0real by {
        assert(t.rows[i].len() == t.cols());
        let a = t.rows[i][0];
        let b = t.rows[i][c];
        assert(a >= 0real);
        if i == r {
            assert(next.rows[i][0] == q / p);
            assert(q / p >= 0real) by (nonlinear_arith)
                requires
                    p > 0real,
                    q >= 0real,
            ;
        } else {
            assert(next.rows[i][0] == a - b * (q / p));
            if b > 0real {
                assert(eligible(t, i, c));
                assert(ratio(t, r, c) <= ratio(t, i, c));
                assert(a - b * (q / p) >= 0real) by (nonlinear_arith)
                    requires
                        b > 0real,
                        q / p <= a / b,
                ;
            } else {
                assert(a - b * (q / p) >= 0real) by (nonlinear_arith)
                    requires
                        b <= 0real,
                        a >= 0real,
                        p > 0real,
                        q >= 0real,
                ;
            }
        }
    }
}

/// Where the basic solution is feasible, a step of the method that pivots
/// keeps it feasible and does not lower the value of the objective.
pub proof fn lemma_step_keeps_objective(t: TableauView)
    requires
        t.wf(),
        feasible(t),
        step(t) is Moved,
    ensures
        step(t)->Moved_0.wf(),
        feasible(step(t)->Moved_0),
        step(t)->Moved_0.rows[0][0] >= t.rows[0][0],
{
    let c = entering(t);
    let j = choose|j: int| 2 <= j < t.cols() && #[trigger] t.rows[0][j] < 0real;
    lemma_entering_exists(t);
    assert(is_entering(t, c));
    assert(t.rows[0][c] <= t.rows[0][j]);
    let r = leaving(t, c);
    lemma_leaving_exists(t, c);
    assert(is_leaving(t, r, c));
    lemma_pivoted_wf(t, r, c);
    lemma_pivot_keeps_feasible(t, r, c);
    lemma_pivot_keeps_objective(t, r, c);
}

/// A tableau with a column for a variable has an entering column.
pub proof fn lemma_entering_exists(t: TableauView)
    requires
        t.wf(),
        t.cols() > 2,
    ensures
        is_entering(t, entering(t)),
{
    let c = least_column(t, t.cols() as int);
    lemma_least_column(t, t.cols() as int);
    assert(is_entering(t, c));
}

/// The first column with the least entry in row 0 among columns 2 to
/// `upto - 1`.
spec fn least_column(t: TableauView, upto: int) -> int
    decreases upto,
{
    if upto <= 3 {
        2
    } else {
        let before = least_column(t, upto - 1);
        if t.rows[0][upto - 1] < t.rows[0][before] {
            upto - 1
        } else {
            before
        }
    }
}

proof fn lemma_least_column(t: TableauView, upto: int)
    requires
        3 <= upto <= t.cols(),
    ensures
        2 <= least_column(t, upto) < upto,
        forall|j: int| 2 <= j < upto ==> t.rows[0][least_column(t, upto)] <= #[trigger] t.rows[0][j],
        forall|j: int|
            2 <= j < least_column(t, upto) ==> t.rows[0][least_column(t, upto)]
                < #[trigger] t.rows[0][j],
    decreases upto,
{
    if upto > 3 {
        lemma_least_column(t, upto - 1);
    }
}

/// Where some row may leave for a column, the column has a leaving row.
pub proof fn lemma_leaving_exists(t: TableauView, c: int)
    requires
        has_eligible(t, c),
    ensures
        is_leaving(t, leaving(t, c), c),
{
    let r = least_row(t, c, t.rows.len() as int);
    let witness = choose|r: int| eligible(t, r, c);
    lemma_least_row(t, c, t.rows.len() as int);
    assert(eligible(t, witness, c));
    assert(is_leaving(t, r, c));
}

/// The first row with the least ratio among the rows 1 to `upto - 1` that
/// may leave for column `c`; 0 if there is none.
spec fn least_row(t: TableauView, c: int, upto: int) -> int
    decreases upto,
{
    if upto <= 1 {
        0
    } else {
        let before = least_row(t, c, upto - 1);
        if eligible(t, upto - 1, c) && (before == 0 || ratio(t, upto - 1, c) < ratio(t, before, c)) {
            upto - 1
        } else {
            before
        }
    }
}

proof fn lemma_least_row(t: TableauView, c: int, upto: int)
    requires
        1 <= upto <= t.rows.len(),
    ensures
        0 <= least_row(t, c, upto) < upto,
        least_row(t, c, upto) == 0 ==> forall|i: int| 1 <= i < upto ==> !eligible(t, i, c),
        least_row(t, c, upto) != 0 ==> {
            &&& eligible(t, least_row(t, c, upto), c)
            &&& forall|i: int|
                1 <= i < upto && eligible(t, i, c) ==> ratio(t, least_row(t, c, upto), c)
                    <= #[trigger] ratio(t, i, c)
            &&& forall|i: int|
                1 <= i < least_row(t, c, upto) && eligible(t, i, c) ==> ratio(
                    t,
                    least_row(t, c, upto),
                    c,
                ) < #[trigger] ratio(t, i, c)
        },
    decreases upto,
{
    if upto > 1 {
        lemma_least_row(t, c, upto - 1);
    }
}

/// Where the basic solution is feasible at the start, the optimum that a run
/// reports is not below the value of the objective at the start: no pivot
/// on the way has lowered it.
pub proof fn lemma_run_keeps_objective(t: TableauView, fuel: nat)
    requires
        t.wf(),
        feasible(t),
        run(t, fuel) is Optimal,
    ensures
        run(t, fuel)->Optimal_0 >= t.rows[0][0],
    decreases fuel,
{
    if fuel > 0 {
        match step(t) {
            StepView::Stopped(outcome) => {},
            StepView::Moved(next) => {
                lemma_step_keeps_objective(t);
                lemma_run_keeps_objective(next, (fuel - 1) as nat);
            },
        }
    }
}

} // verus!
