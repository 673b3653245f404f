//! The simplex tableau of a linear program.
//!
//! Column 0 holds the right-hand sides and column 1 the objective's own
//! variable; then come the variables of the model, and after them the slack,
//! artificial and surplus variables of the constraints. Row 0 reads
//! `z - c_1 x_1 - ... - c_n x_n = 0`, so a negative entry in it marks a
//! variable whose increase raises `z`. Artificial variables are penalized
//! with a large constant, which is folded into row 0.

use crate::matrix::{zero_row, Matrix, MatrixError};
use crate::model::{
    variable_names, Constraint, ConstraintType, ConstraintView, Model, ModelView, Relation, VariableView,
};
use crate::rational::{representable, Rational};
use vstd::prelude::*;

verus! {

/// The column of the right-hand sides.
pub const RHS_INDEX: usize = 0;

/// The column of the objective's own variable.
pub const Z_INDEX: usize = 1;

/// The penalty on artificial variables.
pub const BIG_M: i32 = 1_000_000;

/// The penalty on artificial variables, as a real number.
pub open spec fn penalty() -> real {
    (BIG_M as int) as real
}

/// Why a tableau could not be built.
#[derive(Clone, Copy, Debug, PartialEq, Eq)]
pub enum TableauError {
    /// A value that arises when a penalty is folded into row 0 cannot be held.
    Overflow,
}

/// What a tableau is, in mathematical terms.
pub struct TableauView {
    /// The rows of the matrix; all have the same length.
    pub rows: Seq<Seq<real>>,
    /// For each row the column of its basic variable; for row 0 the column
    /// of the objective's own variable.
    pub basic: Seq<int>,
    /// For each column whether it belongs to an artificial variable.
    pub artificial: Seq<bool>,
    /// The names of the model's variables; the variable at place `i` has
    /// column `i + 2`.
    pub names: Seq<Seq<char>>,
}

impl TableauView {
    /// The number of columns.
    pub open spec fn cols(self) -> nat {
        self.rows[0].len()
    }

    /// There is a row 0, all rows have the same length of at least 2, and
    /// the other parts fit the matrix.
    pub open spec fn wf(self) -> bool {
        &&& self.rows.len() >= 1
        &&& self.cols() >= 2 + self.names.len()
        &&& forall|i: int| 0 <= i < self.rows.len() ==> (#[trigger] self.rows[i]).len() == self.cols()
        &&& self.basic.len() == self.rows.len()
        &&& forall|i: int| 0 <= i < self.basic.len() ==> 0 <= #[trigger] self.basic[i] < self.cols()
        &&& self.artificial.len() == self.cols()
    }

    /// Whether some variable still has a negative entry in row 0.
    pub open spec fn has_negative_reduced_cost(self) -> bool {
        exists|j: int| 2 <= j < self.cols() && #[trigger] self.rows[0][j] < 0real
    }
}

/// Whether `r` is the first row whose basic variable has column `j`.
pub open spec fn is_basic_row(t: TableauView, r: int, j: int) -> bool {
    &&& 0 <= r < t.rows.len()
    &&& t.basic[r] == j
    &&& forall|i: int| 0 <= i < r ==> #[trigger] t.basic[i] != j
}

/// Whether the variable of column `j` is basic.
pub open spec fn is_basic(t: TableauView, j: int) -> bool {
    exists|r: int| is_basic_row(t, r, j)
}

/// The value of the variable of column `j` in the basic solution: the
/// right-hand side of its row if it is basic, else 0. The objective's own
/// variable is basic in row 0, so its value is the value of the objective.
pub open spec fn value_of(t: TableauView, j: int) -> real {
    if is_basic(t, j) {
        t.rows[choose|r: int| is_basic_row(t, r, j)][0]
    } else {
        0real
    }
}

/// The basic solution: the value of each column's variable.
pub open spec fn basic_solution(t: TableauView) -> Seq<real> {
    Seq::new(t.cols(), |j: int| value_of(t, j))
}

/// Whether `c` is the column of the variable called `name`: the column of
/// the first variable of that name.
pub open spec fn is_column_of(t: TableauView, c: int, name: Seq<char>) -> bool {
    &&& 2 <= c < 2 + t.names.len()
    &&& t.names[c - 2] == name
    &&& forall|k: int| 0 <= k < c - 2 ==> #[trigger] t.names[k] != name
}

/// Row 0 of a tableau without constraints: 0, 1, and the negated objective
/// coefficient of each variable.
pub open spec fn objective_row(variables: Seq<VariableView>) -> Seq<real> {
    Seq::new(
        variables.len() + 2,
        |j: int|
            if j == 0 {
                0real
            } else if j == 1 {
                1real
            } else {
                -variables[j - 2].objective
            },
    )
}

/// The tableau of a model without constraints.
pub open spec fn initial_tableau(variables: Seq<VariableView>) -> TableauView {
    TableauView {
        rows: seq![objective_row(variables)],
        basic: seq![1int],
        artificial: Seq::new(variables.len() + 2, |j: int| false),
        names: variable_names(variables),
    }
}

/// How many columns a constraint adds: a slack, an artificial, or an
/// artificial and a surplus variable.
pub open spec fn auxiliary_columns(relation: Relation) -> nat {
    match relation {
        Relation::LessThan(_) => 1,
        Relation::Equals(_) => 1,
        Relation::GreaterThan(_) => 2,
    }
}

/// Whether a constraint gets an artificial variable.
pub open spec fn is_penalized(relation: Relation) -> bool {
    !(relation is LessThan)
}

/// The row of a constraint in a tableau that had `cols` columns before the
/// constraint came: its right-hand side, its coefficient for each variable
/// of the model, 1 for its slack or artificial variable, and -1 for its
/// surplus variable.
pub open spec fn constraint_row(names: Seq<Seq<char>>, constraint: ConstraintView, cols: nat) -> Seq<
    real,
> {
    Seq::new(
        cols + auxiliary_columns(constraint.relation),
        |j: int|
            if j == 0 {
                constraint.relation.rhs()
            } else if 2 <= j < 2 + names.len() {
                constraint.coefficient(names[j - 2])
            } else if j == cols {
                1real
            } else if j == cols + 1 {
                -1real
            } else {
                0real
            },
    )
}

/// Row 0 with the penalty times a constraint's row subtracted from it.
pub open spec fn penalized_row(row0: Seq<real>, row: Seq<real>) -> Seq<real> {
    Seq::new(row0.len(), |j: int| row0[j] - penalty() * row[j])
}

/// Whether every value that arises in `penalized_row` can be held.
pub open spec fn penalty_fits(row0: Seq<real>, row: Seq<real>) -> bool {
    forall|j: int|
        0 <= j < row0.len() ==> representable(penalty() * #[trigger] row[j]) && representable(
            row0[j] - penalty() * row[j],
        )
}

/// Row 0 of `t`, widened for the columns of one more constraint and, if the
/// constraint gets an artificial variable, with the penalty in that
/// variable's column.
pub open spec fn marked_row(t: TableauView, constraint: ConstraintView) -> Seq<real> {
    let widened = t.rows[0] + zero_row(auxiliary_columns(constraint.relation));
    if is_penalized(constraint.relation) {
        widened.update(t.cols() as int, penalty())
    } else {
        widened
    }
}

/// The tableau with one more constraint: every row is widened by zeros for
/// the new columns, and the constraint's row comes last with its slack or
/// artificial variable as its basic variable. An artificial variable gets
/// the penalty in row 0, and the penalty times the constraint's row is then
/// subtracted from row 0, which leaves 0 in the variable's column.
pub open spec fn with_row(t: TableauView, constraint: ConstraintView) -> TableauView {
    let cols = t.cols();
    let extra = auxiliary_columns(constraint.relation);
    let row = constraint_row(t.names, constraint, cols);
    let widened = Seq::new(t.rows.len(), |i: int| t.rows[i] + zero_row(extra));
    let row0 = if is_penalized(constraint.relation) {
        penalized_row(marked_row(t, constraint), row)
    } else {
        marked_row(t, constraint)
    };
    TableauView {
        rows: widened.update(0, row0).push(row),
        basic: t.basic.push(cols as int),
        artificial: t.artificial + Seq::new(
            extra,
            |j: int| j == 0 && is_penalized(constraint.relation),
        ),
        names: t.names,
    }
}

/// Whether the constraint can be added without a value that cannot be held.
pub open spec fn row_fits(t: TableauView, constraint: ConstraintView) -> bool {
    is_penalized(constraint.relation) ==> penalty_fits(
        marked_row(t, constraint),
        constraint_row(t.names, constraint, t.cols()),
    )
}

/// The tableau of the variables and the first `count` of the constraints,
/// or `None` if a value arises on the way that cannot be held.
pub open spec fn tableau_of(
    variables: Seq<VariableView>,
    constraints: Seq<ConstraintView>,
    count: nat,
) -> Option<TableauView>
    decreases count,
{
    if count == 0 {
        Some(initial_tableau(variables))
    } else {
        match tableau_of(variables, constraints, (count - 1) as nat) {
            Some(t) => if row_fits(t, constraints[count - 1]) {
                Some(with_row(t, constraints[count - 1]))
            } else {
                None
            },
            None => None,
        }
    }
}

/// The tableau of a model, or `None` if a value arises on the way that
/// cannot be held.
pub open spec fn model_tableau(model: ModelView) -> Option<TableauView> {
    tableau_of(model.variables, model.constraints, model.constraints.len())
}

/// The simplex tableau of a linear program.
#[derive(Debug)]
pub struct Tableau {
    matrix: Matrix,
    variable_names: Vec<String>,
    basic_variable: Vec<usize>,
    artificial: Vec<bool>,
}

impl View for Tableau {
    type V = TableauView;

    closed spec fn view(&self) -> TableauView {
        TableauView {
            rows: self.matrix@,
            basic: Seq::new(self.basic_variable@.len(), |i: int| self.basic_variable@[i] as int),
            artificial: self.artificial@,
            names: Seq::new(self.variable_names@.len(), |i: int| self.variable_names@[i]@),
        }
    }
}

/// The constraint's row while its coefficients are being entered: the
/// right-hand side and the coefficients of the first `done` variables.
spec fn partial_row(names: Seq<Seq<char>>, constraint: ConstraintView, cols: nat, done: int) -> Seq<
    real,
> {
    Seq::new(
        cols,
        |j: int|
            if j == 0 {
                constraint.relation.rhs()
            } else if 2 <= j < 2 + done {
                constraint.coefficient(names[j - 2])
            } else {
                0real
            },
    )
}

impl Tableau {
    /// The names of the variables, as the view has them.
    spec fn names(&self) -> Seq<Seq<char>> {
        Seq::new(self.variable_names@.len(), |i: int| self.variable_names@[i]@)
    }

    /// The basic columns, as the view has them.
    spec fn basics(&self) -> Seq<int> {
        Seq::new(self.basic_variable@.len(), |i: int| self.basic_variable@[i] as int)
    }

    /// The tableau of `model`, or an error if a value arises on the way
    /// that cannot be held.
    pub fn new(model: &Model) -> (r: Result<Tableau, TableauError>)
        requires
            model.wf(),
            model@.variables.len() + 2 * model@.constraints.len() + 2 <= usize::MAX,
        ensures
            match r {
                Ok(t) => t.wf() && model_tableau(model@) == Some(t@),
                Err(e) => model_tableau(model@) is None,
            },
    {
        let mut tableau = Tableau {
            matrix: Matrix::new(),
            variable_names: Vec::new(),
            basic_variable: Vec::new(),
            artificial: Vec::new(),
        };
        tableau.create_row0(model);
        match tableau.create_constraints(model) {
            Ok(()) => Ok(tableau),
            Err(e) => Err(e),
        }
    }

    /// Creates row 0 and the columns of the model's variables.
    fn create_row0(&mut self, model: &Model)
        requires
            old(self).matrix.wf(),
            old(self).matrix.rows() == 0,
            old(self).matrix.cols() == 0,
            old(self).variable_names@.len() == 0,
            old(self).basic_variable@.len() == 0,
            old(self).artificial@.len() == 0,
            model@.variables.len() + 2 <= usize::MAX,
        ensures
            final(self).wf(),
            final(self)@ == initial_tableau(model@.variables),
    {
        self.matrix.add_row();
        self.matrix.add_column();
        self.matrix.add_column();
        self.artificial.push(false);
        self.artificial.push(false);
        self.matrix.put(0, Z_INDEX, Rational::one());
        self.matrix.put(0, RHS_INDEX, Rational::zero());
        let variables = model.variables();
        proof {
            self.matrix.lemma_shape();
            assert(self.matrix@[0] =~= objective_row(model@.variables.take(0)));
            assert(self.names() =~= variable_names(model@.variables.take(0)));
            assert(self.artificial@ =~= Seq::new(2, |j: int| false));
        }
        let mut i: usize = 0;
        while i < variables.len()
            invariant
                i <= variables@.len(),
                variables@.len() == model@.variables.len(),
                forall|k: int| 0 <= k < variables@.len() ==> (#[trigger] variables@[k])@ == model@.variables[k],
                variables@.len() + 2 <= usize::MAX,
                self.matrix.wf(),
                self.matrix.rows() == 1,
                self.matrix.cols() == i + 2,
                self.matrix@.len() == 1,
                self.matrix@[0] == objective_row(model@.variables.take(i as int)),
                self.variable_names@.len() == i,
                self.names() == variable_names(model@.variables.take(i as int)),
                self.artificial@ == Seq::new((i + 2) as nat, |j: int| false),
                self.basic_variable@.len() == 0,
            decreases variables@.len() - i,
        {
            let ghost names_before = self.names();
            let column: usize = self.matrix.add_column();
            self.variable_names.push(variables[i].name().to_owned());
            self.artificial.push(false);
            self.matrix.put(0, column, variables[i].objective_value().neg());
            proof {
                self.matrix.lemma_shape();
                assert(model@.variables.take(i + 1) =~= model@.variables.take(i as int).push(
                    model@.variables[i as int],
                ));
                assert(self.matrix@[0] =~= objective_row(model@.variables.take(i + 1)));
                assert(variables@[i as int]@ == model@.variables[i as int]);
                assert(self.names() =~= names_before.push(model@.variables[i as int].name));
                assert(self.names() =~= variable_names(model@.variables.take(i + 1)));
                assert(self.artificial@ =~= Seq::new((i + 3) as nat, |j: int| false));
            }
            i += 1;
        }
        self.basic_variable.push(Z_INDEX);
        proof {
            self.matrix.lemma_shape();
            assert(model@.variables.take(i as int) =~= model@.variables);
            assert(self@.rows =~= seq![objective_row(model@.variables)]);
            assert(self@.basic =~= seq![1int]);
            assert(self@.names == self.names());
        }
    }

    /// Adds the rows of the model's constraints, in order.
    fn create_constraints(&mut self, model: &Model) -> (r: Result<(), TableauError>)
        requires
            old(self).wf(),
            model.wf(),
            old(self)@ == initial_tableau(model@.variables),
            model@.variables.len() + 2 * model@.constraints.len() + 2 <= usize::MAX,
        ensures
            final(self).wf(),
            match r {
                Ok(()) => model_tableau(model@) == Some(final(self)@),
                Err(e) => model_tableau(model@) is None,
            },
    {
        let constraints = model.constraints();
        let mut i: usize = 0;
        while i < constraints.len()
            invariant
                i <= constraints@.len(),
                constraints@.len() == model@.constraints.len(),
                forall|k: int|
                    0 <= k < constraints@.len() ==> (#[trigger] constraints@[k])@
                        == model@.constraints[k] && constraints@[k].wf(),
                self.wf(),
                tableau_of(model@.variables, model@.constraints, i as nat) == Some(self@),
                self@.cols() <= model@.variables.len() + 2 + 2 * i,
                self@.rows.len() == i + 1,
                model@.variables.len() + 2 * model@.constraints.len() + 2 <= usize::MAX,
            decreases constraints@.len() - i,
        {
            match self.create_constraint(&constraints[i]) {
                Ok(()) => {},
                Err(e) => {
                    proof {
                        lemma_tableau_of_fails(
                            model@.variables,
                            model@.constraints,
                            (i + 1) as nat,
                            model@.constraints.len(),
                        );
                    }
                    return Err(e);
                },
            }
            i += 1;
        }
        Ok(())
    }

    /// Adds the row of a constraint, with its slack, artificial and surplus
    /// variables. On an error the tableau is left well formed, but holds no
    /// meaningful values.
    fn create_constraint(&mut self, constraint: &Constraint) -> (r: Result<(), TableauError>)
        requires
            old(self).wf(),
            constraint.wf(),
            old(self)@.cols() + 2 <= usize::MAX,
            old(self)@.rows.len() < usize::MAX,
        ensures
            final(self).wf(),
            match r {
                Ok(()) => row_fits(old(self)@, constraint@) && final(self)@ == with_row(
                    old(self)@,
                    constraint@,
                ),
                Err(e) => !row_fits(old(self)@, constraint@),
            },
    {
        proof {
            self.matrix.lemma_shape();
        }
        let ghost t = self@;
        let ghost cols = t.cols();
        let ghost names = t.names;
        let row: usize = self.matrix.add_row();
        self.matrix.put(row, RHS_INDEX, constraint.rhs());
        proof {
            self.matrix.lemma_shape();
            assert(self.matrix@[row as int] =~= partial_row(names, constraint@, cols, 0));
        }
        let mut j: usize = 0;
        while j < self.variable_names.len()
            invariant
                j <= self.variable_names@.len(),
                constraint.wf(),
                self.matrix.wf(),
                self.matrix.rows() == t.rows.len() + 1,
                self.matrix.cols() == cols,
                row == t.rows.len(),
                self.variable_names == old(self).variable_names,
                self.basic_variable == old(self).basic_variable,
                self.artificial == old(self).artificial,
                names == self.names(),
                names.len() + 2 <= cols,
                cols + 2 <= usize::MAX,
                self.matrix@.len() == row + 1,
                forall|i: int| 0 <= i < row ==> #[trigger] self.matrix@[i] == t.rows[i],
                self.matrix@[row as int] == partial_row(names, constraint@, cols, j as int),
            decreases self.variable_names@.len() - j,
        {
            let value: Rational = constraint.coefficient_of(&self.variable_names[j]);
            self.matrix.put(row, j + 2, value);
            proof {
                self.matrix.lemma_shape();
                assert(self.matrix@[row as int] =~= partial_row(names, constraint@, cols, j + 1));
            }
            j += 1;
        }
        let ghost entered = self.matrix@;
        assert(forall|i: int| 0 <= i < t.basic.len() ==> #[trigger] self.basics()[i] == t.basic[i]);
        let r = match *constraint.constraint_type() {
            ConstraintType::LessThan(_) => {
                self.create_slack_variable(row);
                Ok(())
            },
            ConstraintType::Equals(_) => {
                self.create_artificial_variable(row);
                proof {
                    self.matrix.lemma_shape();
                    assert(entered[0] == t.rows[0]);
                    assert(self.matrix@[0] =~= marked_row(t, constraint@));
                    assert(self.matrix@[row as int] =~= constraint_row(names, constraint@, cols));
                }
                self.fold_penalty(row)
            },
            ConstraintType::GreaterThan(_) => {
                self.create_artificial_variable(row);
                self.create_surplus_variable(row);
                proof {
                    self.matrix.lemma_shape();
                    assert(entered[0] == t.rows[0]);
                    assert(self.matrix@[0] =~= marked_row(t, constraint@));
                    assert(self.matrix@[row as int] =~= constraint_row(names, constraint@, cols));
                }
                self.fold_penalty(row)
            },
        };
        proof {
            self.matrix.lemma_shape();
            assert forall|i: int| 0 <= i < self@.basic.len() implies 0 <= #[trigger] self@.basic[i]
                < self@.cols() by {
                if i < row {
                    assert(self.basics()[i] == t.basic[i]);
                }
            }
            if r.is_ok() {
                let goal = with_row(t, constraint@);
                assert(self@.rows.len() == goal.rows.len());
                assert forall|i: int| 0 <= i < self@.rows.len() implies #[trigger] self@.rows[i]
                    =~= goal.rows[i] by {
                    if i < row {
                        assert(entered[i] == t.rows[i]);
                    }
                }
                assert(self@.rows =~= goal.rows);
                assert(self@.basic =~= goal.basic);
                assert(self@.artificial =~= goal.artificial);
                assert(self@.names =~= goal.names);
            }
        }
        r
    }

    /// Appends a column with `value` in `row`, `top` in row 0 and zeros
    /// elsewhere, and records whether it is artificial.
    fn create_column(&mut self, row: usize, value: Rational, top: Rational, artificial: bool) -> (column:
        usize)
        requires
            old(self).matrix.wf(),
            1 <= row < old(self).matrix.rows(),
            old(self).matrix.cols() < usize::MAX,
        ensures
            final(self).matrix.wf(),
            final(self).matrix.rows() == old(self).matrix.rows(),
            final(self).matrix.cols() == old(self).matrix.cols() + 1,
            column == old(self).matrix.cols(),
            final(self).matrix@ == Seq::new(
                old(self).matrix.rows(),
                |i: int|
                    old(self).matrix@[i].push(
                        if i == row {
                            value@
                        } else if i == 0 {
                            top@
                        } else {
                            0real
                        },
                    ),
            ),
            final(self).variable_names == old(self).variable_names,
            final(self).basic_variable == old(self).basic_variable,
            final(self).artificial@ == old(self).artificial@.push(artificial),
    {
        proof {
            self.matrix.lemma_shape();
        }
        let column: usize = self.matrix.add_column();
        self.matrix.put(row, column, value);
        self.matrix.put(0, column, top);
        self.artificial.push(artificial);
        proof {
            self.matrix.lemma_shape();
            assert(self.matrix@ =~~= Seq::new(
                old(self).matrix.rows(),
                |i: int|
                    old(self).matrix@[i].push(
                        if i == row {
                            value@
                        } else if i == 0 {
                            top@
                        } else {
                            0real
                        },
                    ),
            ));
        }
        column
    }

    /// Appends the slack variable of `row` and makes it the row's basic
    /// variable.
    fn create_slack_variable(&mut self, row: usize)
        requires
            old(self).matrix.wf(),
            1 <= row < old(self).matrix.rows(),
            old(self).matrix.cols() < usize::MAX,
        ensures
            final(self).matrix.wf(),
            final(self).matrix.rows() == old(self).matrix.rows(),
            final(self).matrix.cols() == old(self).matrix.cols() + 1,
            final(self).matrix@ == Seq::new(
                old(self).matrix.rows(),
                |i: int|
                    old(self).matrix@[i].push(
                        if i == row {
                            1real
                        } else {
                            0real
                        },
                    ),
            ),
            final(self).variable_names == old(self).variable_names,
            final(self).basic_variable@ == old(self).basic_variable@.push(
                old(self).matrix.cols() as usize,
            ),
            final(self).artificial@ == old(self).artificial@.push(false),
    {
        let column: usize = self.create_column(row, Rational::one(), Rational::zero(), false);
        self.basic_variable.push(column);
        assert(self.matrix@ =~~= Seq::new(
            old(self).matrix.rows(),
            |i: int|
                old(self).matrix@[i].push(
                    if i == row {
                        1real
                    } else {
                        0real
                    },
                ),
        ));
    }

    /// Appends the artificial variable of `row` with its penalty in row 0,
    /// and makes it the row's basic variable.
    fn create_artificial_variable(&mut self, row: usize)
        requires
            old(self).matrix.wf(),
            1 <= row < old(self).matrix.rows(),
            old(self).matrix.cols() < usize::MAX,
        ensures
            final(self).matrix.wf(),
            final(self).matrix.rows() == old(self).matrix.rows(),
            final(self).matrix.cols() == old(self).matrix.cols() + 1,
            final(self).matrix@ == Seq::new(
                old(self).matrix.rows(),
                |i: int|
                    old(self).matrix@[i].push(
                        if i == row {
                            1real
                        } else if i == 0 {
                            penalty()
                        } else {
                            0real
                        },
                    ),
            ),
            final(self).variable_names == old(self).variable_names,
            final(self).basic_variable@ == old(self).basic_variable@.push(
                old(self).matrix.cols() as usize,
            ),
            final(self).artificial@ == old(self).artificial@.push(true),
    {
        let column: usize = self.create_column(
            row,
            Rational::one(),
            Rational::from_integer(BIG_M),
            true,
        );
        self.basic_variable.push(column);
    }

    /// Appends the surplus variable of `row`.
    fn create_surplus_variable(&mut self, row: usize)
        requires
            old(self).matrix.wf(),
            1 <= row < old(self).matrix.rows(),
            old(self).matrix.cols() < usize::MAX,
        ensures
            final(self).matrix.wf(),
            final(self).matrix.rows() == old(self).matrix.rows(),
            final(self).matrix.cols() == old(self).matrix.cols() + 1,
            final(self).matrix@ == Seq::new(
                old(self).matrix.rows(),
                |i: int|
                    old(self).matrix@[i].push(
                        if i == row {
                            -1real
                        } else {
                            0real
                        },
                    ),
            ),
            final(self).variable_names == old(self).variable_names,
            final(self).basic_variable == old(self).basic_variable,
            final(self).artificial@ == old(self).artificial@.push(false),
    {
        self.create_column(row, Rational::from_integer(-1), Rational::zero(), false);
        assert(self.matrix@ =~~= Seq::new(
            old(self).matrix.rows(),
            |i: int|
                old(self).matrix@[i].push(
                    if i == row {
                        -1real
                    } else {
                        0real
                    },
                ),
        ));
    }

    /// Subtracts the penalty times `row` from row 0, which removes the
    /// penalty from the column of the row's artificial variable.
    fn fold_penalty(&mut self, row: usize) -> (r: Result<(), TableauError>)
        requires
            old(self).matrix.wf(),
            1 <= row < old(self).matrix.rows(),
        ensures
            final(self).matrix.wf(),
            final(self).matrix.rows() == old(self).matrix.rows(),
            final(self).matrix.cols() == old(self).matrix.cols(),
            final(self).variable_names == old(self).variable_names,
            final(self).basic_variable == old(self).basic_variable,
            final(self).artificial == old(self).artificial,
            match r {
                Ok(()) => penalty_fits(old(self).matrix@[0], old(self).matrix@[row as int])
                    && final(self).matrix@ == old(self).matrix@.update(
                    0,
                    penalized_row(old(self).matrix@[0], old(self).matrix@[row as int]),
                ),
                Err(e) => !penalty_fits(old(self).matrix@[0], old(self).matrix@[row as int]),
            },
    {
        proof {
            self.matrix.lemma_shape();
        }
        let ghost start = self.matrix@;
        let big_m: Rational = Rational::from_integer(BIG_M);
        let n: usize = self.matrix.num_cols();
        let mut column: usize = 0;
        while column < n
            invariant
                column <= n,
                n == self.matrix.cols(),
                big_m@ == penalty(),
                self.matrix.wf(),
                1 <= row < self.matrix.rows(),
                self.matrix.rows() == old(self).matrix.rows(),
                self.matrix.cols() == old(self).matrix.cols(),
                self.variable_names == old(self).variable_names,
                self.basic_variable == old(self).basic_variable,
                self.artificial == old(self).artificial,
                start == old(self).matrix@,
                start.len() == self.matrix.rows(),
                start[0].len() == n,
                start[row as int].len() == n,
                self.matrix@.len() == start.len(),
                forall|i: int| 1 <= i < start.len() ==> #[trigger] self.matrix@[i] == start[i],
                self.matrix@[0].len() == n,
                forall|j: int|
                    0 <= j < column ==> #[trigger] self.matrix@[0][j] == start[0][j] - penalty()
                        * start[row as int][j],
                forall|j: int| column <= j < n ==> #[trigger] self.matrix@[0][j] == start[0][j],
                forall|j: int|
                    0 <= j < column ==> representable(penalty() * #[trigger] start[row as int][j])
                        && representable(start[0][j] - penalty() * start[row as int][j]),
            decreases n - column,
        {
            let product = match big_m.checked_mul(self.matrix.at(row, column)) {
                Some(p) => p,
                None => {
                    return Err(TableauError::Overflow);
                },
            };
            let value = match self.matrix.at(0, column).checked_sub(product) {
                Some(v) => v,
                None => {
                    return Err(TableauError::Overflow);
                },
            };
            self.matrix.put(0, column, value);
            proof {
                self.matrix.lemma_shape();
            }
            column += 1;
        }
        proof {
            assert(self.matrix@[0] =~= penalized_row(start[0], start[row as int]));
            assert(self.matrix@ =~= start.update(0, penalized_row(start[0], start[row as int])));
        }
        Ok(())
    }

    /// The parts of the tableau fit together.
    pub closed spec fn wf(&self) -> bool {
        &&& self.matrix.wf()
        &&& self.matrix.rows() >= 1
        &&& self@.wf()
    }

    /// A well-formed tableau has a well-formed view.
    pub proof fn lemma_wf(&self)
        requires
            self.wf(),
        ensures
            self@.wf(),
    {
    }

    /// The number of rows: one for the objective and one for each
    /// constraint.
    pub fn num_rows(&self) -> (n: usize)
        requires
            self.wf(),
        ensures
            n == self@.rows.len(),
    {
        proof {
            self.matrix.lemma_shape();
        }
        self.matrix.num_rows()
    }

    /// The number of columns.
    pub fn num_cols(&self) -> (n: usize)
        requires
            self.wf(),
        ensures
            n == self@.cols(),
    {
        proof {
            self.matrix.lemma_shape();
        }
        self.matrix.num_cols()
    }

    /// Overwrites one cell, or reports which index is out of range and
    /// leaves the tableau as it was.
    pub fn set_value(&mut self, row: usize, column: usize, value: Rational) -> (r: Result<
        (),
        MatrixError,
    >)
        requires
            old(self).wf(),
        ensures
            final(self).wf(),
            row >= old(self)@.rows.len() ==> r == Err::<(), MatrixError>(MatrixError::RowOutOfRange),
            row < old(self)@.rows.len() && column >= old(self)@.cols() ==> r == Err::<
                (),
                MatrixError,
            >(MatrixError::ColumnOutOfRange),
            row < old(self)@.rows.len() && column < old(self)@.cols() ==> r.is_ok(),
            r.is_ok() ==> final(self)@ == (TableauView {
                rows: old(self)@.rows.update(
                    row as int,
                    old(self)@.rows[row as int].update(column as int, value@),
                ),
                ..old(self)@
            }),
            r.is_err() ==> final(self)@ == old(self)@,
    {
        proof {
            self.matrix.lemma_shape();
        }
        let r = self.matrix.set_value(row, column, value);
        proof {
            self.matrix.lemma_shape();
        }
        r
    }

    /// Reads one cell, or reports which index is out of range.
    pub fn get_value(&self, row: usize, column: usize) -> (r: Result<Rational, MatrixError>)
        requires
            self.wf(),
        ensures
            row >= self@.rows.len() ==> r == Err::<Rational, MatrixError>(MatrixError::RowOutOfRange),
            row < self@.rows.len() && column >= self@.cols() ==> r == Err::<Rational, MatrixError>(
                MatrixError::ColumnOutOfRange,
            ),
            row < self@.rows.len() && column < self@.cols() ==> r.is_ok(),
            r matches Ok(v) ==> v@ == self@.rows[row as int][column as int],
    {
        proof {
            self.matrix.lemma_shape();
        }
        self.matrix.get_value(row, column)
    }

    /// Overwrites a cell that is known to exist.
    pub(crate) fn put(&mut self, row: usize, column: usize, value: Rational)
        requires
            old(self).wf(),
            row < old(self)@.rows.len(),
            column < old(self)@.cols(),
        ensures
            final(self).wf(),
            final(self)@ == (TableauView {
                rows: old(self)@.rows.update(
                    row as int,
                    old(self)@.rows[row as int].update(column as int, value@),
                ),
                ..old(self)@
            }),
    {
        proof {
            self.matrix.lemma_shape();
        }
        self.matrix.put(row, column, value);
        proof {
            self.matrix.lemma_shape();
        }
    }

    /// Reads a cell that is known to exist.
    pub(crate) fn at(&self, row: usize, column: usize) -> (v: Rational)
        requires
            self.wf(),
            row < self@.rows.len(),
            column < self@.cols(),
        ensures
            v@ == self@.rows[row as int][column as int],
    {
        proof {
            self.matrix.lemma_shape();
        }
        self.matrix.at(row, column)
    }

    /// The entry of row 0 in a column: how much the objective loses for
    /// each unit of the column's variable.
    pub fn get_reduced_cost(&self, column: usize) -> (r: Result<Rational, MatrixError>)
        requires
            self.wf(),
        ensures
            column >= self@.cols() ==> r == Err::<Rational, MatrixError>(
                MatrixError::ColumnOutOfRange,
            ),
            column < self@.cols() ==> r.is_ok(),
            r matches Ok(v) ==> v@ == self@.rows[0][column as int],
    {
        self.get_value(0, column)
    }

    /// The right-hand side of a row.
    pub fn get_rhs(&self, row: usize) -> (r: Result<Rational, MatrixError>)
        requires
            self.wf(),
        ensures
            row >= self@.rows.len() ==> r == Err::<Rational, MatrixError>(MatrixError::RowOutOfRange),
            row < self@.rows.len() ==> r.is_ok(),
            r matches Ok(v) ==> v@ == self@.rows[row as int][0],
    {
        self.get_value(row, RHS_INDEX)
    }

    /// The current value of the objective: the right-hand side of row 0.
    pub fn get_objective_value(&self) -> (v: Rational)
        requires
            self.wf(),
        ensures
            v@ == self@.rows[0][0],
    {
        self.at(0, RHS_INDEX)
    }

    /// Whether some variable still has a negative entry in row 0.
    pub fn has_negative_reduced_cost(&self) -> (b: bool)
        requires
            self.wf(),
        ensures
            b == self@.has_negative_reduced_cost(),
    {
        let n: usize = self.num_cols();
        let mut i: usize = 2;
        while i < n
            invariant
                self.wf(),
                n == self@.cols(),
                2 <= i <= n,
                forall|j: int| 2 <= j < i ==> !(#[trigger] self@.rows[0][j] < 0real),
            decreases n - i,
        {
            if self.at(0, i).is_negative() {
                return true;
            }
            i += 1;
        }
        false
    }

    /// Records `column` as the basic variable of `row`, or reports which
    /// index is out of range and leaves the tableau as it was.
    pub fn set_basic_variable(&mut self, row: usize, column: usize) -> (r: Result<(), MatrixError>)
        requires
            old(self).wf(),
        ensures
            final(self).wf(),
            row >= old(self)@.rows.len() ==> r == Err::<(), MatrixError>(MatrixError::RowOutOfRange),
            row < old(self)@.rows.len() && column >= old(self)@.cols() ==> r == Err::<
                (),
                MatrixError,
            >(MatrixError::ColumnOutOfRange),
            row < old(self)@.rows.len() && column < old(self)@.cols() ==> r.is_ok(),
            r.is_ok() ==> final(self)@ == (TableauView {
                basic: old(self)@.basic.update(row as int, column as int),
                ..old(self)@
            }),
            r.is_err() ==> final(self)@ == old(self)@,
    {
        if row >= self.num_rows() {
            return Err(MatrixError::RowOutOfRange);
        }
        if column >= self.num_cols() {
            return Err(MatrixError::ColumnOutOfRange);
        }
        self.mark_basic(row, column);
        Ok(())
    }

    /// Records `column` as the basic variable of `row`; both are known to
    /// exist.
    pub(crate) fn mark_basic(&mut self, row: usize, column: usize)
        requires
            old(self).wf(),
            row < old(self)@.rows.len(),
            column < old(self)@.cols(),
        ensures
            final(self).wf(),
            final(self)@ == (TableauView {
                basic: old(self)@.basic.update(row as int, column as int),
                ..old(self)@
            }),
    {
        self.basic_variable.set(row, column);
        assert(self@.basic =~= old(self)@.basic.update(row as int, column as int));
        assert(self@.names =~= old(self)@.names);
    }

    /// The column of the basic variable of a row that is known to exist.
    pub(crate) fn basic_at(&self, row: usize) -> (column: usize)
        requires
            self.wf(),
            row < self@.rows.len(),
        ensures
            column == self@.basic[row as int],
            column < self@.cols(),
    {
        self.basic_variable[row]
    }

    /// Whether a column that is known to exist belongs to an artificial
    /// variable.
    pub(crate) fn artificial_at(&self, column: usize) -> (b: bool)
        requires
            self.wf(),
            column < self@.cols(),
        ensures
            b == self@.artificial[column as int],
    {
        self.artificial[column]
    }

    /// The column of the variable called `name`, if the model has one.
    pub fn column_of(&self, name: &String) -> (r: Option<usize>)
        requires
            self.wf(),
        ensures
            match r {
                Some(c) => is_column_of(self@, c as int, name@),
                None => !self@.names.contains(name@),
            },
    {
        let n: usize = self.num_cols();
        let mut i: usize = 0;
        while i < self.variable_names.len()
            invariant
                self.wf(),
                n == self@.cols(),
                i <= self.variable_names@.len(),
                self@.names.len() == self.variable_names@.len(),
                forall|k: int| 0 <= k < i ==> #[trigger] self@.names[k] != name@,
            decreases self.variable_names.len() - i,
        {
            if self.variable_names[i] == *name {
                assert(self@.names[i as int] == name@);
                return Some(i + 2);
            }
            i += 1;
        }
        None
    }

    /// The value of a column's variable in the basic solution: the
    /// right-hand side of the first row that has it as its basic variable,
    /// or 0 if there is no such row.
    pub fn basic_value(&self, column: usize) -> (v: Rational)
        requires
            self.wf(),
        ensures
            v@ == value_of(self@, column as int),
    {
        let n: usize = self.num_rows();
        let mut row: usize = 0;
        while row < n
            invariant
                self.wf(),
                n == self@.rows.len(),
                row <= n,
                forall|k: int| 0 <= k < row ==> #[trigger] self@.basic[k] != column,
            decreases n - row,
        {
            if self.basic_at(row) == column {
                proof {
                    assert(is_basic_row(self@, row as int, column as int));
                    let chosen = choose|r: int| is_basic_row(self@, r, column as int);
                    assert(chosen == row) by {
                        if chosen < row {
                            assert(self@.basic[chosen] != column);
                        } else if row < chosen {
                            assert(self@.basic[row as int] != column);
                        }
                    }
                }
                return self.at(row, RHS_INDEX);
            }
            row += 1;
        }
        proof {
            assert forall|r: int| !is_basic_row(self@, r, column as int) by {
                if 0 <= r < self@.rows.len() {
                    assert(self@.basic[r] != column);
                }
            }
        }
        Rational::zero()
    }

    /// The column of the basic variable of a row.
    pub fn get_basic_variable(&self, row: usize) -> (r: Result<usize, MatrixError>)
        requires
            self.wf(),
        ensures
            row >= self@.rows.len() ==> r == Err::<usize, MatrixError>(MatrixError::RowOutOfRange),
            row < self@.rows.len() ==> r == Ok::<usize, MatrixError>(self@.basic[row as int] as usize),
    {
        if row >= self.num_rows() {
            return Err(MatrixError::RowOutOfRange);
        }
        Ok(self.basic_at(row))
    }

    /// Whether a column belongs to an artificial variable.
    pub fn is_artificial(&self, column: usize) -> (r: Result<bool, MatrixError>)
        requires
            self.wf(),
        ensures
            column >= self@.cols() ==> r == Err::<bool, MatrixError>(MatrixError::ColumnOutOfRange),
            column < self@.cols() ==> r == Ok::<bool, MatrixError>(self@.artificial[column as int]),
    {
        if column >= self.num_cols() {
            return Err(MatrixError::ColumnOutOfRange);
        }
        Ok(self.artificial_at(column))
    }
}

/// Once the tableau of some constraints cannot be built, none of more
/// constraints can.
proof fn lemma_tableau_of_fails(
    variables: Seq<VariableView>,
    constraints: Seq<ConstraintView>,
    failed: nat,
    count: nat,
)
    requires
        failed <= count,
        tableau_of(variables, constraints, failed) is None,
    ensures
        tableau_of(variables, constraints, count) is None,
    decreases count,
{
    if failed < count {
        lemma_tableau_of_fails(variables, constraints, failed, (count - 1) as nat);
    }
}

} // verus!
