//! The simplex method on a tableau: choose the entering column, choose the
//! leaving row by the ratio test, pivot, and repeat until no column of row 0
//! is negative.
//!
//! Every pivot raises the value of the objective or leaves it as it is, so
//! an optimum is the greatest value that the objective can have. To find
//! the least value of a function, give its negated coefficients as the
//! objective and negate the optimum.

use crate::model::{all_supported, lemma_bounded_len, normalized_constraints, preprocessed, Model, ModelView};
use crate::rational::{representable, Rational};
use crate::tableau::{is_column_of, model_tableau, value_of, Tableau, TableauError, TableauView};
use vstd::prelude::*;

verus! {

/// How many pivots a solver makes at most, unless it is told otherwise.
pub const DEFAULT_ITERATION_LIMIT: usize = 10_000;

/// Whether `c` is the entering column: among the columns of variables it has
/// the least entry in row 0, and it is the first such column.
pub open spec fn is_entering(t: TableauView, c: int) -> bool {
    &&& 2 <= c < t.cols()
    &&& forall|j: int| 2 <= j < t.cols() ==> t.rows[0][c] <= #[trigger] t.rows[0][j]
    &&& forall|j: int| 2 <= j < c ==> t.rows[0][c] < #[trigger] t.rows[0][j]
}

/// The entering column.
pub open spec fn entering(t: TableauView) -> int {
    choose|c: int| is_entering(t, c)
}

/// Whether row `r` may leave for column `c`: it is a constraint's row and
/// its entry in the column is positive.
pub open spec fn eligible(t: TableauView, r: int, c: int) -> bool {
    1 <= r < t.rows.len() && t.rows[r][c] > 0real
}

/// The ratio of a row's right-hand side to its entry in column `c`.
pub open spec fn ratio(t: TableauView, r: int, c: int) -> real {
    t.rows[r][0] / t.rows[r][c]
}

/// Whether some row may leave for column `c`.
pub open spec fn has_eligible(t: TableauView, c: int) -> bool {
    exists|r: int| eligible(t, r, c)
}

/// Whether the ratio of every row that may leave for column `c` can be held.
pub open spec fn ratios_fit(t: TableauView, c: int) -> bool {
    forall|r: int| eligible(t, r, c) ==> representable(#[trigger] ratio(t, r, c))
}

/// Whether `r` is the leaving row for column `c`: among the rows that may
/// leave it has the least ratio, and it is the first such row.
pub open spec fn is_leaving(t: TableauView, r: int, c: int) -> bool {
    &&& eligible(t, r, c)
    &&& forall|i: int| eligible(t, i, c) ==> ratio(t, r, c) <= #[trigger] ratio(t, i, c)
    &&& forall|i: int| eligible(t, i, c) && i < r ==> ratio(t, r, c) < #[trigger] ratio(t, i, c)
}

/// The leaving row for column `c`.
pub open spec fn leaving(t: TableauView, c: int) -> int {
    choose|r: int| is_leaving(t, r, c)
}

/// There is at most one entering column.
pub proof fn lemma_entering_unique(t: TableauView, a: int, b: int)
    requires
        is_entering(t, a),
        is_entering(t, b),
    ensures
        a == b,
{
    if a < b {
        assert(t.rows[0][b] < t.rows[0][a]);
        assert(t.rows[0][a] <= t.rows[0][b]);
    } else if b < a {
        assert(t.rows[0][a] < t.rows[0][b]);
        assert(t.rows[0][b] <= t.rows[0][a]);
    }
}

/// There is at most one leaving row for a column.
pub proof fn lemma_leaving_unique(t: TableauView, c: int, a: int, b: int)
    requires
        is_leaving(t, a, c),
        is_leaving(t, b, c),
    ensures
        a == b,
{
    if a < b {
        assert(ratio(t, b, c) < ratio(t, a, c));
        assert(ratio(t, a, c) <= ratio(t, b, c));
    } else if b < a {
        assert(ratio(t, a, c) < ratio(t, b, c));
        assert(ratio(t, b, c) <= ratio(t, a, c));
    }
}

/// A row divided by its entry in column `c`.
pub open spec fn normalized_row(row: Seq<real>, c: int) -> Seq<real> {
    Seq::new(row.len(), |j: int| row[j] / row[c])
}

/// Whether every entry of `normalized_row` can be held.
pub open spec fn normalize_fits(row: Seq<real>, c: int) -> bool {
    forall|j: int| 0 <= j < row.len() ==> representable(#[trigger] row[j] / row[c])
}

/// A row with its entry in column `c` times the pivot row subtracted from
/// it.
pub open spec fn eliminated_row(row: Seq<real>, pivot_row: Seq<real>, c: int) -> Seq<real> {
    Seq::new(row.len(), |j: int| row[j] - row[c] * pivot_row[j])
}

/// Whether every value that arises in `eliminated_row` can be held.
pub open spec fn eliminate_fits(row: Seq<real>, pivot_row: Seq<real>, c: int) -> bool {
    forall|j: int|
        0 <= j < row.len() ==> representable(row[c] * #[trigger] pivot_row[j]) && representable(
            row[j] - row[c] * pivot_row[j],
        )
}

/// The tableau after a pivot on row `r` and column `c`: the row is divided
/// by its entry in the column, its multiples are subtracted from all other
/// rows so that they get 0 in the column, and the column's variable becomes
/// the basic variable of the row.
pub open spec fn pivoted(t: TableauView, r: int, c: int) -> TableauView {
    let unit = normalized_row(t.rows[r], c);
    TableauView {
        rows: Seq::new(
            t.rows.len(),
            |i: int|
                if i == r {
                    unit
                } else {
                    eliminated_row(t.rows[i], unit, c)
                },
        ),
        basic: t.basic.update(r, c),
        ..t
    }
}

/// Whether every value that arises in a pivot can be held.
pub open spec fn pivot_fits(t: TableauView, r: int, c: int) -> bool {
    &&& normalize_fits(t.rows[r], c)
    &&& forall|i: int|
        0 <= i < t.rows.len() && i != r ==> eliminate_fits(
            #[trigger] t.rows[i],
            normalized_row(t.rows[r], c),
            c,
        )
}

/// How a run of the method ends, in mathematical terms.
pub enum OutcomeView {
    Optimal(real),
    Unbounded,
    Infeasible,
    IterationLimitExceeded,
    Overflow,
}

/// How a run of the method ends.
#[derive(Clone, Copy, Debug, PartialEq, Eq)]
pub enum Outcome {
    /// No column of row 0 is negative and no artificial variable is left
    /// with a positive value: the objective has reached this value.
    Optimal(Rational),
    /// The entering column has no positive entry: the objective of the
    /// tableau can grow without limit.
    Unbounded,
    /// No column of row 0 is negative, but an artificial variable is left
    /// in the basis with a positive value: the constraints cannot all hold,
    /// unless the model has coefficients so large that the penalty on
    /// artificial variables does not outweigh them.
    Infeasible,
    /// The limit on the number of pivots was reached before the end.
    IterationLimitExceeded,
    /// A value arose that cannot be held.
    Overflow,
}

impl View for Outcome {
    type V = OutcomeView;

    open spec fn view(&self) -> OutcomeView {
        match *self {
            Outcome::Optimal(v) => OutcomeView::Optimal(v@),
            Outcome::Unbounded => OutcomeView::Unbounded,
            Outcome::Infeasible => OutcomeView::Infeasible,
            Outcome::IterationLimitExceeded => OutcomeView::IterationLimitExceeded,
            Outcome::Overflow => OutcomeView::Overflow,
        }
    }
}

/// Whether row `r` holds an artificial variable with a positive value.
pub open spec fn is_residual(t: TableauView, r: int) -> bool {
    1 <= r < t.rows.len() && t.artificial[t.basic[r]] && t.rows[r][0] > 0real
}

/// Whether some artificial variable is left in the basis with a positive
/// value. The values are exact, so any value above 0 counts.
pub open spec fn is_infeasible(t: TableauView) -> bool {
    exists|r: int| is_residual(t, r)
}

/// What a tableau without a negative column in row 0 says.
pub open spec fn conclusion(t: TableauView) -> OutcomeView {
    if is_infeasible(t) {
        OutcomeView::Infeasible
    } else {
        OutcomeView::Optimal(t.rows[0][0])
    }
}

/// What one step of the method does.
pub enum StepView {
    /// A pivot was made; this is the tableau after it.
    Moved(TableauView),
    /// The method has come to an end.
    Stopped(OutcomeView),
}

/// One step of the method: stop if no column of row 0 is negative; else
/// choose the entering column, stop if no row may leave for it, else choose
/// the leaving row and pivot.
pub open spec fn step(t: TableauView) -> StepView {
    if !t.has_negative_reduced_cost() {
        StepView::Stopped(conclusion(t))
    } else {
        let c = entering(t);
        if !has_eligible(t, c) {
            StepView::Stopped(OutcomeView::Unbounded)
        } else if !ratios_fit(t, c) {
            StepView::Stopped(OutcomeView::Overflow)
        } else {
            let r = leaving(t, c);
            if !pivot_fits(t, r, c) {
                StepView::Stopped(OutcomeView::Overflow)
            } else {
                StepView::Moved(pivoted(t, r, c))
            }
        }
    }
}

/// The method run from `t` with at most `fuel` pivots.
pub open spec fn run(t: TableauView, fuel: nat) -> OutcomeView
    decreases fuel,
{
    if fuel == 0 {
        if t.has_negative_reduced_cost() {
            OutcomeView::IterationLimitExceeded
        } else {
            conclusion(t)
        }
    } else {
        match step(t) {
            StepView::Stopped(outcome) => outcome,
            StepView::Moved(next) => run(next, (fuel - 1) as nat),
        }
    }
}

/// The tableau after `pivots` steps of the method, each of which made a
/// pivot; `None` if the method ended before.
pub open spec fn advanced(t: TableauView, pivots: nat) -> Option<TableauView>
    decreases pivots,
{
    if pivots == 0 {
        Some(t)
    } else {
        match step(t) {
            StepView::Moved(next) => advanced(next, (pivots - 1) as nat),
            StepView::Stopped(_) => None,
        }
    }
}

/// The tableau at which the method, run from `t` with at most `fuel`
/// pivots, comes to rest.
pub open spec fn last_tableau(t: TableauView, fuel: nat) -> TableauView
    decreases fuel,
{
    if fuel == 0 {
        t
    } else {
        match step(t) {
            StepView::Stopped(_) => t,
            StepView::Moved(next) => last_tableau(next, (fuel - 1) as nat),
        }
    }
}

/// Why a step of the method could not be made.
#[derive(Clone, Copy, Debug, PartialEq, Eq)]
pub enum SolverError {
    /// A variable has a lower bound other than 0, or equal bounds.
    UnsupportedConstraint,
    /// A value arose that cannot be held.
    Overflow,
}

/// What a solver is, in mathematical terms.
pub struct SolverView {
    /// The preprocessed model.
    pub model: ModelView,
    /// The tableau in its current state.
    pub tableau: TableauView,
    /// How many pivots `solve` makes at most.
    pub iteration_limit: nat,
}

/// A simplex solver for one model.
#[derive(Debug)]
pub struct Solver {
    model: Model,
    tableau: Tableau,
    iteration_limit: usize,
}

impl View for Solver {
    type V = SolverView;

    closed spec fn view(&self) -> SolverView {
        SolverView {
            model: self.model@,
            tableau: self.tableau@,
            iteration_limit: self.iteration_limit as nat,
        }
    }
}

impl Solver {
    /// The model and the tableau are well formed.
    pub closed spec fn wf(&self) -> bool {
        self.model.wf() && self.tableau.wf()
    }

    /// The tableau of a well-formed solver is well formed.
    pub proof fn lemma_wf(&self)
        requires
            self.wf(),
        ensures
            self@.tableau.wf(),
    {
        self.tableau.lemma_wf();
    }

    /// A solver for `model`. The model is copied and the copy preprocessed:
    /// constraints with a negative right-hand side are multiplied by -1,
    /// and every upper bound of a variable gets its constraint.
    pub fn new(model: &Model) -> (r: Result<Solver, SolverError>)
        requires
            model.wf(),
            3 * model@.variables.len() + 2 * model@.constraints.len() + 2 <= usize::MAX,
        ensures
            match r {
                Ok(solver) => {
                    &&& solver.wf()
                    &&& all_supported(model@.variables)
                    &&& solver@.model == preprocessed(model@)
                    &&& model_tableau(preprocessed(model@)) == Some(solver@.tableau)
                    &&& solver@.iteration_limit == DEFAULT_ITERATION_LIMIT
                },
                Err(SolverError::UnsupportedConstraint) => !all_supported(model@.variables),
                Err(SolverError::Overflow) => all_supported(model@.variables) && model_tableau(
                    preprocessed(model@),
                ) is None,
            },
    {
        let mut preprocessed_model = model.clone();
        match Self::preprocess_model(&mut preprocessed_model) {
            Ok(()) => {},
            Err(e) => {
                return Err(e);
            },
        }
        proof {
            lemma_bounded_len(
                normalized_constraints(model@.constraints),
                model@.variables,
                model@.variables.len(),
            );
        }
        match Tableau::new(&preprocessed_model) {
            Ok(tableau) => Ok(
                Solver { tableau, model: preprocessed_model, iteration_limit: DEFAULT_ITERATION_LIMIT },
            ),
            Err(TableauError::Overflow) => Err(SolverError::Overflow),
        }
    }

    /// Preprocesses a model: multiplies the constraints with a negative
    /// right-hand side by -1, then adds the constraints of the variables'
    /// upper bounds. A model with a bound that cannot be honoured is left as
    /// it is.
    pub fn preprocess_model(model: &mut Model) -> (r: Result<(), SolverError>)
        requires
            old(model).wf(),
        ensures
            final(model).wf(),
            match r {
                Ok(()) => all_supported(old(model)@.variables) && final(model)@ == preprocessed(
                    old(model)@,
                ),
                Err(e) => e == SolverError::UnsupportedConstraint && !all_supported(
                    old(model)@.variables,
                ) && final(model)@ == old(model)@,
            },
    {
        if !model.has_supported_bounds() {
            return Err(SolverError::UnsupportedConstraint);
        }
        model.fix_negative_rhs();
        model.add_bounds_constraints();
        Ok(())
    }

    /// Sets how many pivots `solve` makes at most.
    pub fn set_iteration_limit(&mut self, limit: usize)
        requires
            old(self).wf(),
        ensures
            final(self).wf(),
            final(self)@ == (SolverView { iteration_limit: limit as nat, ..old(self)@ }),
    {
        self.iteration_limit = limit;
    }

    /// The preprocessed model.
    pub fn model(&self) -> (m: &Model)
        ensures
            m@ == self@.model,
            self.wf() ==> m.wf(),
    {
        &self.model
    }

    /// The tableau in its current state.
    pub fn tableau(&self) -> (t: &Tableau)
        ensures
            t@ == self@.tableau,
            self.wf() ==> t.wf(),
    {
        &self.tableau
    }

    /// The value of the objective in the current state of the tableau.
    pub fn objective_value(&self) -> (v: Rational)
        requires
            self.wf(),
        ensures
            v@ == self@.tableau.rows[0][0],
    {
        self.tableau.get_objective_value()
    }

    /// The value that the basic solution of the current tableau gives to
    /// the variable called `name`; `None` if the model has no such
    /// variable.
    pub fn variable_value(&self, name: &String) -> (r: Option<Rational>)
        requires
            self.wf(),
        ensures
            match r {
                Some(v) => exists|c: int|
                    is_column_of(self@.tableau, c, name@) && v@ == #[trigger] value_of(
                        self@.tableau,
                        c,
                    ),
                None => !self@.tableau.names.contains(name@),
            },
    {
        match self.tableau.column_of(name) {
            Some(column) => {
                let v: Rational = self.tableau.basic_value(column);
                assert(is_column_of(self@.tableau, column as int, name@) && v@ == value_of(
                    self@.tableau,
                    column as int,
                ));
                Some(v)
            },
            None => None,
        }
    }

    /// Runs the method until it ends or the limit on pivots is reached.
    /// Unless a value arose that cannot be held, the tableau is left as the
    /// method came to rest, so that the values of the variables can be read
    /// from it.
    pub fn solve(&mut self) -> (outcome: Outcome)
        requires
            old(self).wf(),
        ensures
            final(self).wf(),
            final(self)@.model == old(self)@.model,
            final(self)@.iteration_limit == old(self)@.iteration_limit,
            outcome@ == run(old(self)@.tableau, old(self)@.iteration_limit),
            !(outcome is Overflow) ==> final(self)@.tableau == last_tableau(
                old(self)@.tableau,
                old(self)@.iteration_limit,
            ),
    {
        let mut iterations: usize = 0;
        while iterations < self.iteration_limit
            invariant
                iterations <= self.iteration_limit,
                self.wf(),
                self@.model == old(self)@.model,
                self@.iteration_limit == old(self)@.iteration_limit,
                run(old(self)@.tableau, old(self)@.iteration_limit) == run(
                    self@.tableau,
                    (self.iteration_limit - iterations) as nat,
                ),
                last_tableau(old(self)@.tableau, old(self)@.iteration_limit) == last_tableau(
                    self@.tableau,
                    (self.iteration_limit - iterations) as nat,
                ),
            decreases self.iteration_limit - iterations,
        {
            match self.step() {
                Some(outcome) => {
                    return outcome;
                },
                None => {},
            }
            iterations += 1;
        }
        if self.should_continue() {
            Outcome::IterationLimitExceeded
        } else {
            self.conclude()
        }
    }

    /// Makes one step of the method. `None` says that a pivot was made and
    /// the method goes on; otherwise the method has ended, and after an
    /// overflow the tableau holds no meaningful values.
    pub fn step(&mut self) -> (r: Option<Outcome>)
        requires
            old(self).wf(),
        ensures
            final(self).wf(),
            final(self)@.model == old(self)@.model,
            final(self)@.iteration_limit == old(self)@.iteration_limit,
            match step(old(self)@.tableau) {
                StepView::Moved(next) => r is None && final(self)@.tableau == next,
                StepView::Stopped(outcome) => r matches Some(o) && o@ == outcome,
            },
            r is Some && !(r matches Some(Outcome::Overflow)) ==> final(self)@.tableau == old(
                self,
            )@.tableau,
    {
        proof {
            self.lemma_wf();
        }
        let ghost t = self@.tableau;
        if !self.should_continue() {
            return Some(self.conclude());
        }
        let column: usize = self.choose_pivot_column();
        proof {
            lemma_entering_unique(t, column as int, entering(t));
        }
        let row: usize = match self.choose_pivot_row(column) {
            Ok(Some(row)) => row,
            Ok(None) => {
                return Some(Outcome::Unbounded);
            },
            Err(_) => {
                return Some(Outcome::Overflow);
            },
        };
        proof {
            lemma_leaving_unique(t, column as int, row as int, leaving(t, column as int));
        }
        match self.pivot(row, column) {
            Ok(()) => None,
            Err(_) => Some(Outcome::Overflow),
        }
    }

    /// What the tableau says once no column of row 0 is negative:
    /// infeasible if an artificial variable is left in the basis with a
    /// positive value, else the value of the objective.
    pub fn conclude(&self) -> (outcome: Outcome)
        requires
            self.wf(),
        ensures
            outcome@ == conclusion(self@.tableau),
    {
        proof {
            self.lemma_wf();
        }
        let n: usize = self.tableau.num_rows();
        let mut row: usize = 1;
        while row < n
            invariant
                self.wf(),
                self@.tableau.wf(),
                n == self@.tableau.rows.len(),
                1 <= row <= n,
                forall|k: int| 1 <= k < row ==> !is_residual(self@.tableau, k),
            decreases n - row,
        {
            let column: usize = self.tableau.basic_at(row);
            if self.tableau.artificial_at(column) && self.tableau.at(row, 0).is_positive() {
                assert(is_residual(self@.tableau, row as int));
                return Outcome::Infeasible;
            }
            row += 1;
        }
        Outcome::Optimal(self.tableau.get_objective_value())
    }

    /// Whether to go on pivoting: some column of row 0 is still negative.
    pub fn should_continue(&self) -> (b: bool)
        requires
            self.wf(),
        ensures
            b == self@.tableau.has_negative_reduced_cost(),
    {
        self.tableau.has_negative_reduced_cost()
    }

    /// The column of the variable that enters the basis: the first one with
    /// the least entry in row 0.
    pub fn choose_pivot_column(&self) -> (column: usize)
        requires
            self.wf(),
            self@.tableau.cols() > 2,
        ensures
            is_entering(self@.tableau, column as int),
    {
        proof {
            self.lemma_wf();
        }
        let mut next_column: usize = 2;
        let mut best_value: Rational = self.tableau.at(0, 2);
        let n: usize = self.tableau.num_cols();
        let mut i: usize = 3;
        while i < n
            invariant
                self.wf(),
                self@.tableau.wf(),
                n == self@.tableau.cols(),
                3 <= i <= n,
                2 <= next_column < i,
                best_value@ == self@.tableau.rows[0][next_column as int],
                forall|j: int| 2 <= j < i ==> best_value@ <= #[trigger] self@.tableau.rows[0][j],
                forall|j: int| 2 <= j < next_column ==> best_value@ < #[trigger] self@.tableau.rows[0][j],
            decreases n - i,
        {
            let value: Rational = self.tableau.at(0, i);
            if value.less_than(&best_value) {
                next_column = i;
                best_value = value;
            }
            i += 1;
        }
        next_column
    }

    /// The ratio of a row's right-hand side to its entry in the pivot
    /// column, for a row whose entry is positive; `None` for another row.
    pub fn get_ratio_test(&self, row: usize, pivot_column: usize) -> (r: Result<
        Option<Rational>,
        SolverError,
    >)
        requires
            self.wf(),
            row < self@.tableau.rows.len(),
            pivot_column < self@.tableau.cols(),
        ensures
            match r {
                Ok(Some(q)) => self@.tableau.rows[row as int][pivot_column as int] > 0real && q@
                    == ratio(self@.tableau, row as int, pivot_column as int) && representable(q@),
                Ok(None) => self@.tableau.rows[row as int][pivot_column as int] <= 0real,
                Err(e) => e == SolverError::Overflow && self@.tableau.rows[row as int][pivot_column as int]
                    > 0real && !representable(ratio(self@.tableau, row as int, pivot_column as int)),
            },
    {
        proof {
            self.lemma_wf();
        }
        let entry: Rational = self.tableau.at(row, pivot_column);
        if !entry.is_positive() {
            return Ok(None);
        }
        match self.tableau.at(row, 0).checked_div(entry) {
            Some(q) => Ok(Some(q)),
            None => Err(SolverError::Overflow),
        }
    }

    /// The row whose basic variable leaves the basis: the first one with
    /// the least ratio among the rows with a positive entry in the entering
    /// column. `None` if no row has a positive entry there.
    pub fn choose_pivot_row(&self, entering_variable: usize) -> (r: Result<Option<usize>, SolverError>)
        requires
            self.wf(),
            entering_variable < self@.tableau.cols(),
        ensures
            match r {
                Ok(Some(row)) => ratios_fit(self@.tableau, entering_variable as int) && is_leaving(
                    self@.tableau,
                    row as int,
                    entering_variable as int,
                ),
                Ok(None) => !has_eligible(self@.tableau, entering_variable as int),
                Err(e) => e == SolverError::Overflow && !ratios_fit(
                    self@.tableau,
                    entering_variable as int,
                ),
            },
    {
        proof {
            self.lemma_wf();
        }
        let ghost t = self@.tableau;
        let ghost c = entering_variable as int;
        let mut best: Option<(usize, Rational)> = None;
        let n: usize = self.tableau.num_rows();
        let mut i: usize = 1;
        while i < n
            invariant
                self.wf(),
                t.wf(),
                t == self@.tableau,
                c == entering_variable as int,
                entering_variable < t.cols(),
                n == t.rows.len(),
                1 <= i <= n,
                forall|k: int| 1 <= k < i && eligible(t, k, c) ==> representable(#[trigger] ratio(t, k, c)),
                match best {
                    Some((row, q)) => {
                        &&& 1 <= row < i
                        &&& eligible(t, row as int, c)
                        &&& q@ == ratio(t, row as int, c)
                        &&& forall|k: int|
                            1 <= k < i && eligible(t, k, c) ==> q@ <= #[trigger] ratio(t, k, c)
                        &&& forall|k: int|
                            1 <= k < row && eligible(t, k, c) ==> q@ < #[trigger] ratio(t, k, c)
                    },
                    None => forall|k: int| 1 <= k < i ==> !eligible(t, k, c),
                },
            decreases n - i,
        {
            match self.get_ratio_test(i, entering_variable) {
                Err(e) => {
                    assert(eligible(t, i as int, c));
                    return Err(e);
                },
                Ok(None) => {},
                Ok(Some(q)) => {
                    let better: bool = match best {
                        Some((_, min_ratio)) => q.less_than(&min_ratio),
                        None => true,
                    };
                    if better {
                        best = Some((i, q));
                    }
                },
            }
            i += 1;
        }
        match best {
            Some((row, _)) => Ok(Some(row)),
            None => Ok(None),
        }
    }

    /// Divides the pivot row by its entry in the pivot column, which makes
    /// that entry 1. On an error the row holds no meaningful values.
    pub fn normalize_pivot_row(&mut self, row: usize, column: usize) -> (r: Result<(), SolverError>)
        requires
            old(self).wf(),
            row < old(self)@.tableau.rows.len(),
            column < old(self)@.tableau.cols(),
            old(self)@.tableau.rows[row as int][column as int] != 0real,
        ensures
            final(self).wf(),
            final(self)@.model == old(self)@.model,
            final(self)@.iteration_limit == old(self)@.iteration_limit,
            match r {
                Ok(()) => normalize_fits(old(self)@.tableau.rows[row as int], column as int)
                    && final(self)@.tableau == (TableauView {
                    rows: old(self)@.tableau.rows.update(
                        row as int,
                        normalized_row(old(self)@.tableau.rows[row as int], column as int),
                    ),
                    ..old(self)@.tableau
                }),
                Err(e) => e == SolverError::Overflow && !normalize_fits(
                    old(self)@.tableau.rows[row as int],
                    column as int,
                ),
            },
    {
        proof {
            self.lemma_wf();
        }
        let ghost t = self@.tableau;
        let ghost start = t.rows[row as int];
        let ghost c = column as int;
        let ratio: Rational = self.tableau.at(row, column);
        let n: usize = self.tableau.num_cols();
        let mut i: usize = 0;
        while i < n
            invariant
                i <= n,
                n == t.cols(),
                t.wf(),
                t == old(self)@.tableau,
                row < t.rows.len(),
                c == column as int,
                column < t.cols(),
                start == t.rows[row as int],
                start.len() == n,
                ratio@ == start[c],
                ratio@ != 0real,
                self.wf(),
                self@.model == old(self)@.model,
                self@.iteration_limit == old(self)@.iteration_limit,
                self@.tableau.basic == t.basic,
                self@.tableau.artificial == t.artificial,
                self@.tableau.names == t.names,
                self@.tableau.rows.len() == t.rows.len(),
                self@.tableau.cols() == n,
                forall|k: int|
                    0 <= k < t.rows.len() && k != row ==> #[trigger] self@.tableau.rows[k] == t.rows[k],
                self@.tableau.rows[row as int].len() == n,
                forall|j: int|
                    0 <= j < i ==> #[trigger] self@.tableau.rows[row as int][j] == start[j] / start[c],
                forall|j: int| i <= j < n ==> #[trigger] self@.tableau.rows[row as int][j] == start[j],
                forall|j: int| 0 <= j < i ==> representable(#[trigger] start[j] / start[c]),
            decreases n - i,
        {
            proof {
                self.lemma_wf();
            }
            assert(self@.tableau.rows[row as int][i as int] == start[i as int]);
            let new_value = match self.tableau.at(row, i).checked_div(ratio) {
                Some(q) => q,
                None => {
                    assert(!representable(start[i as int] / start[c]));
                    return Err(SolverError::Overflow);
                },
            };
            self.tableau.put(row, i, new_value);
            i += 1;
        }
        proof {
            assert(self@.tableau.rows[row as int] =~= normalized_row(start, c));
            assert(self@.tableau.rows =~= t.rows.update(row as int, normalized_row(start, c)));
        }
        Ok(())
    }

    /// Subtracts from `current_row` its entry in the pivot column times the
    /// pivot row, which makes that entry 0 once the pivot row has 1 there.
    /// On an error the row holds no meaningful values.
    pub fn eliminate_row(&mut self, current_row: usize, pivot_row: usize, pivot_column: usize) -> (r:
        Result<(), SolverError>)
        requires
            old(self).wf(),
            current_row < old(self)@.tableau.rows.len(),
            pivot_row < old(self)@.tableau.rows.len(),
            current_row != pivot_row,
            pivot_column < old(self)@.tableau.cols(),
        ensures
            final(self).wf(),
            final(self)@.model == old(self)@.model,
            final(self)@.iteration_limit == old(self)@.iteration_limit,
            match r {
                Ok(()) => eliminate_fits(
                    old(self)@.tableau.rows[current_row as int],
                    old(self)@.tableau.rows[pivot_row as int],
                    pivot_column as int,
                ) && final(self)@.tableau == (TableauView {
                    rows: old(self)@.tableau.rows.update(
                        current_row as int,
                        eliminated_row(
                            old(self)@.tableau.rows[current_row as int],
                            old(self)@.tableau.rows[pivot_row as int],
                            pivot_column as int,
                        ),
                    ),
                    ..old(self)@.tableau
                }),
                Err(e) => e == SolverError::Overflow && !eliminate_fits(
                    old(self)@.tableau.rows[current_row as int],
                    old(self)@.tableau.rows[pivot_row as int],
                    pivot_column as int,
                ),
            },
    {
        proof {
            self.lemma_wf();
        }
        let ghost t = self@.tableau;
        let ghost start = t.rows[current_row as int];
        let ghost unit = t.rows[pivot_row as int];
        let ghost c = pivot_column as int;
        let factor: Rational = self.tableau.at(current_row, pivot_column);
        let n: usize = self.tableau.num_cols();
        let mut j: usize = 0;
        while j < n
            invariant
                j <= n,
                n == t.cols(),
                t.wf(),
                t == old(self)@.tableau,
                current_row < t.rows.len(),
                pivot_row < t.rows.len(),
                current_row != pivot_row,
                c == pivot_column as int,
                pivot_column < t.cols(),
                start == t.rows[current_row as int],
                unit == t.rows[pivot_row as int],
                start.len() == n,
                unit.len() == n,
                factor@ == start[c],
                self.wf(),
                self@.model == old(self)@.model,
                self@.iteration_limit == old(self)@.iteration_limit,
                self@.tableau.basic == t.basic,
                self@.tableau.artificial == t.artificial,
                self@.tableau.names == t.names,
                self@.tableau.rows.len() == t.rows.len(),
                self@.tableau.cols() == n,
                forall|k: int|
                    0 <= k < t.rows.len() && k != current_row ==> #[trigger] self@.tableau.rows[k]
                        == t.rows[k],
                self@.tableau.rows[current_row as int].len() == n,
                forall|k: int|
                    0 <= k < j ==> #[trigger] self@.tableau.rows[current_row as int][k] == start[k]
                        - start[c] * unit[k],
                forall|k: int|
                    j <= k < n ==> #[trigger] self@.tableau.rows[current_row as int][k] == start[k],
                forall|k: int|
                    0 <= k < j ==> representable(start[c] * #[trigger] unit[k]) && representable(
                        start[k] - start[c] * unit[k],
                    ),
            decreases n - j,
        {
            proof {
                self.lemma_wf();
            }
            assert(self@.tableau.rows[current_row as int][j as int] == start[j as int]);
            assert(self@.tableau.rows[pivot_row as int] == unit);
            let product = match factor.checked_mul(self.tableau.at(pivot_row, j)) {
                Some(p) => p,
                None => {
                    assert(!representable(start[c] * unit[j as int]));
                    return Err(SolverError::Overflow);
                },
            };
            let new_value = match self.tableau.at(current_row, j).checked_sub(product) {
                Some(v) => v,
                None => {
                    assert(!representable(start[j as int] - start[c] * unit[j as int]));
                    return Err(SolverError::Overflow);
                },
            };
            self.tableau.put(current_row, j, new_value);
            j += 1;
        }
        proof {
            assert(self@.tableau.rows[current_row as int] =~= eliminated_row(start, unit, c));
            assert(self@.tableau.rows =~= t.rows.update(current_row as int, eliminated_row(start, unit, c)));
        }
        Ok(())
    }

    /// Pivots on a row and a column: the column's variable enters the basis
    /// in the place of the row's basic variable. On an error the tableau
    /// holds no meaningful values.
    pub fn pivot(&mut self, pivot_row: usize, pivot_column: usize) -> (r: Result<(), SolverError>)
        requires
            old(self).wf(),
            pivot_row < old(self)@.tableau.rows.len(),
            pivot_column < old(self)@.tableau.cols(),
            old(self)@.tableau.rows[pivot_row as int][pivot_column as int] != 0real,
        ensures
            final(self).wf(),
            final(self)@.model == old(self)@.model,
            final(self)@.iteration_limit == old(self)@.iteration_limit,
            match r {
                Ok(()) => pivot_fits(old(self)@.tableau, pivot_row as int, pivot_column as int)
                    && final(self)@.tableau == pivoted(
                    old(self)@.tableau,
                    pivot_row as int,
                    pivot_column as int,
                ),
                Err(e) => e == SolverError::Overflow && !pivot_fits(
                    old(self)@.tableau,
                    pivot_row as int,
                    pivot_column as int,
                ),
            },
    {
        proof {
            self.lemma_wf();
        }
        let ghost t = self@.tableau;
        let ghost p = pivot_row as int;
        let ghost c = pivot_column as int;
        let ghost unit = normalized_row(t.rows[p], c);
        match self.normalize_pivot_row(pivot_row, pivot_column) {
            Ok(()) => {},
            Err(e) => {
                return Err(e);
            },
        }
        proof {
            self.lemma_wf();
        }
        let n: usize = self.tableau.num_rows();
        let mut current_row: usize = 0;
        while current_row < n
            invariant
                current_row <= n,
                n == t.rows.len(),
                t.wf(),
                t == old(self)@.tableau,
                p == pivot_row as int,
                c == pivot_column as int,
                pivot_row < t.rows.len(),
                pivot_column < t.cols(),
                unit == normalized_row(t.rows[p], c),
                normalize_fits(t.rows[p], c),
                self.wf(),
                self@.model == old(self)@.model,
                self@.iteration_limit == old(self)@.iteration_limit,
                self@.tableau.basic == t.basic,
                self@.tableau.artificial == t.artificial,
                self@.tableau.names == t.names,
                self@.tableau.rows.len() == t.rows.len(),
                self@.tableau.cols() == t.cols(),
                self@.tableau.rows[p] == unit,
                forall|i: int|
                    0 <= i < current_row && i != p ==> #[trigger] self@.tableau.rows[i]
                        == eliminated_row(t.rows[i], unit, c),
                forall|i: int| current_row <= i < n && i != p ==> #[trigger] self@.tableau.rows[i] == t.rows[i],
                forall|i: int|
                    0 <= i < current_row && i != p ==> eliminate_fits(#[trigger] t.rows[i], unit, c),
            decreases n - current_row,
        {
            if current_row != pivot_row {
                assert(self@.tableau.rows[current_row as int] == t.rows[current_row as int]);
                match self.eliminate_row(current_row, pivot_row, pivot_column) {
                    Ok(()) => {},
                    Err(e) => {
                        assert(!eliminate_fits(t.rows[current_row as int], unit, c));
                        return Err(e);
                    },
                }
            }
            current_row += 1;
        }
        self.tableau.mark_basic(pivot_row, pivot_column);
        proof {
            assert(self@.tableau.rows =~= pivoted(t, p, c).rows);
        }
        Ok(())
    }
}

} // verus!
