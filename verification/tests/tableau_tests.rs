use rustplex::matrix::MatrixError;
use rustplex::rational::{Rational, LIMIT};
use rustplex::tableau::{Tableau, TableauError, BIG_M, RHS_INDEX, Z_INDEX};
use rustplex::{Constraint, ConstraintType, Model, Variable};

fn w(v: i32) -> Rational {
    Rational::from_integer(v)
}

fn var(name: &str, objective: i32) -> Variable {
    Variable::new(String::from(name)).with_objective(w(objective))
}

fn constraint(name: &str, relation: ConstraintType, terms: &[(&Variable, i32)]) -> Constraint {
    let mut c = Constraint::new(String::from(name), relation);
    for (v, coefficient) in terms {
        c.set_coefficient(v, w(*coefficient));
    }
    c
}

fn row_of(t: &Tableau, row: usize) -> Vec<Rational> {
    (0..t.num_cols()).map(|column| t.get_value(row, column).unwrap()).collect()
}

fn whole_row(values: &[i32]) -> Vec<Rational> {
    values.iter().map(|v| w(*v)).collect()
}

fn sample_tableau() -> Tableau {
    let mut model = Model::new();
    let x = var("x", 3);
    let y = var("y", 2);
    model.add_constraint(constraint("c1", ConstraintType::LessThan(w(18)), &[(&x, 2), (&y, 1)]));
    model.add_constraint(constraint("c2", ConstraintType::LessThan(w(42)), &[(&x, 2), (&y, 3)]));
    model.add_constraint(constraint("c3", ConstraintType::LessThan(w(24)), &[(&x, 3), (&y, 1)]));
    model.add_variable(x);
    model.add_variable(y);
    Tableau::new(&model).unwrap()
}

#[test]
fn tableau_of_an_empty_model_has_row_zero_only() {
    let t = Tableau::new(&Model::new()).unwrap();
    assert_eq!(t.num_rows(), 1);
    assert_eq!(t.num_cols(), 2);
    assert_eq!(row_of(&t, 0), whole_row(&[0, 1]));
    assert_eq!(t.get_objective_value(), w(0));
    assert!(!t.has_negative_reduced_cost());
    assert_eq!(t.get_basic_variable(0), Ok(Z_INDEX));
}

#[test]
fn tableau_of_the_sample_model() {
    let t = sample_tableau();
    assert_eq!(t.num_rows(), 4);
    assert_eq!(t.num_cols(), 7);
    assert_eq!(row_of(&t, 0), whole_row(&[0, 1, -3, -2, 0, 0, 0]));
    assert_eq!(row_of(&t, 1), whole_row(&[18, 0, 2, 1, 1, 0, 0]));
    assert_eq!(row_of(&t, 2), whole_row(&[42, 0, 2, 3, 0, 1, 0]));
    assert_eq!(row_of(&t, 3), whole_row(&[24, 0, 3, 1, 0, 0, 1]));
    assert_eq!(t.get_basic_variable(0), Ok(1));
    assert_eq!(t.get_basic_variable(1), Ok(4));
    assert_eq!(t.get_basic_variable(2), Ok(5));
    assert_eq!(t.get_basic_variable(3), Ok(6));
    assert_eq!(t.get_basic_variable(4), Err(MatrixError::RowOutOfRange));
    for column in 0..7 {
        assert_eq!(t.is_artificial(column), Ok(false));
    }
    assert_eq!(t.is_artificial(7), Err(MatrixError::ColumnOutOfRange));
}

#[test]
fn tableau_reads_rows_and_columns() {
    let t = sample_tableau();
    assert_eq!(t.get_rhs(2), Ok(w(42)));
    assert_eq!(t.get_rhs(0), Ok(w(0)));
    assert_eq!(t.get_rhs(4), Err(MatrixError::RowOutOfRange));
    assert_eq!(t.get_reduced_cost(2), Ok(w(-3)));
    assert_eq!(t.get_reduced_cost(RHS_INDEX), Ok(w(0)));
    assert_eq!(t.get_reduced_cost(7), Err(MatrixError::ColumnOutOfRange));
    assert_eq!(t.get_value(3, 2), Ok(w(3)));
    assert_eq!(t.get_value(4, 0), Err(MatrixError::RowOutOfRange));
    assert_eq!(t.get_value(0, 7), Err(MatrixError::ColumnOutOfRange));
    assert_eq!(t.get_objective_value(), w(0));
    assert!(t.has_negative_reduced_cost());
}

#[test]
fn tableau_columns_of_names() {
    let t = sample_tableau();
    assert_eq!(t.column_of(&String::from("x")), Some(2));
    assert_eq!(t.column_of(&String::from("y")), Some(3));
    assert_eq!(t.column_of(&String::from("c1")), None);
    assert_eq!(t.column_of(&String::from("")), None);
}

#[test]
fn tableau_basic_values_at_the_start() {
    let t = sample_tableau();
    assert_eq!(t.basic_value(2), w(0));
    assert_eq!(t.basic_value(3), w(0));
    assert_eq!(t.basic_value(4), w(18));
    assert_eq!(t.basic_value(5), w(42));
    assert_eq!(t.basic_value(6), w(24));
    assert_eq!(t.basic_value(1), w(0));
    assert_eq!(t.basic_value(99), w(0));
}

#[test]
fn tableau_set_value_and_basic_variable() {
    let mut t = sample_tableau();
    assert_eq!(t.set_value(1, 2, w(9)), Ok(()));
    assert_eq!(t.get_value(1, 2), Ok(w(9)));
    assert_eq!(t.set_value(4, 2, w(9)), Err(MatrixError::RowOutOfRange));
    assert_eq!(t.set_value(1, 7, w(9)), Err(MatrixError::ColumnOutOfRange));
    assert_eq!(t.set_basic_variable(1, 2), Ok(()));
    assert_eq!(t.get_basic_variable(1), Ok(2));
    assert_eq!(t.set_basic_variable(4, 2), Err(MatrixError::RowOutOfRange));
    assert_eq!(t.set_basic_variable(1, 7), Err(MatrixError::ColumnOutOfRange));
    assert_eq!(t.get_basic_variable(1), Ok(2));
    assert_eq!(row_of(&t, 2), whole_row(&[42, 0, 2, 3, 0, 1, 0]));
}

#[test]
fn negative_reduced_cost_only_counts_variables() {
    let mut t = sample_tableau();
    for column in 2..7 {
        assert_eq!(t.set_value(0, column, w(0)), Ok(()));
    }
    assert_eq!(t.set_value(0, 0, w(-1)), Ok(()));
    assert_eq!(t.set_value(0, 1, w(-1)), Ok(()));
    assert!(!t.has_negative_reduced_cost());
    assert_eq!(t.set_value(0, 6, w(-1)), Ok(()));
    assert!(t.has_negative_reduced_cost());
}

#[test]
fn equality_gets_an_artificial_variable_and_the_penalty_is_folded() {
    let mut model = Model::new();
    let x = var("x", 1);
    let y = var("y", 4);
    model.add_constraint(constraint("sum", ConstraintType::Equals(w(5)), &[(&x, 1), (&y, 2)]));
    model.add_variable(x);
    model.add_variable(y);
    let t = Tableau::new(&model).unwrap();
    assert_eq!(t.num_cols(), 5);
    assert_eq!(row_of(&t, 1), whole_row(&[5, 0, 1, 2, 1]));
    assert_eq!(row_of(&t, 0), whole_row(&[-5 * BIG_M, 1, -1 - BIG_M, -4 - 2 * BIG_M, 0]));
    assert_eq!(t.get_basic_variable(1), Ok(4));
    assert_eq!(t.is_artificial(4), Ok(true));
    assert_eq!(t.is_artificial(3), Ok(false));
}

#[test]
fn greater_than_gets_an_artificial_and_a_surplus_variable() {
    let mut model = Model::new();
    let x = var("x", -1);
    model.add_constraint(constraint("floor", ConstraintType::GreaterThan(w(1)), &[(&x, 1)]));
    model.add_constraint(constraint("cap", ConstraintType::LessThan(w(9)), &[(&x, 1)]));
    model.add_variable(x);
    let t = Tableau::new(&model).unwrap();
    assert_eq!(t.num_rows(), 3);
    assert_eq!(t.num_cols(), 6);
    assert_eq!(row_of(&t, 1), whole_row(&[1, 0, 1, 1, -1, 0]));
    assert_eq!(row_of(&t, 2), whole_row(&[9, 0, 1, 0, 0, 1]));
    assert_eq!(row_of(&t, 0), whole_row(&[-BIG_M, 1, 1 - BIG_M, 0, BIG_M, 0]));
    assert_eq!(t.get_basic_variable(1), Ok(3));
    assert_eq!(t.get_basic_variable(2), Ok(5));
    assert_eq!(t.is_artificial(3), Ok(true));
    assert_eq!(t.is_artificial(4), Ok(false));
    assert_eq!(t.is_artificial(5), Ok(false));
}

#[test]
fn coefficient_of_an_unknown_variable_is_ignored() {
    let mut model = Model::new();
    let x = var("x", 1);
    let stranger = var("stranger", 1);
    model.add_constraint(constraint("c", ConstraintType::LessThan(w(4)), &[(&x, 2), (&stranger, 7)]));
    model.add_variable(x);
    let t = Tableau::new(&model).unwrap();
    assert_eq!(t.num_cols(), 4);
    assert_eq!(row_of(&t, 0), whole_row(&[0, 1, -1, 0]));
    assert_eq!(row_of(&t, 1), whole_row(&[4, 0, 2, 1]));
    assert_eq!(model.constraints()[0].unknown_variables(model.variables()), vec![String::from("stranger")]);
}

#[test]
fn variable_without_coefficient_gets_zero() {
    let mut model = Model::new();
    let x = var("x", 1);
    let y = var("y", 1);
    model.add_constraint(constraint("c", ConstraintType::LessThan(w(4)), &[(&y, 5)]));
    model.add_variable(x);
    model.add_variable(y);
    let t = Tableau::new(&model).unwrap();
    assert_eq!(row_of(&t, 1), whole_row(&[4, 0, 0, 5, 1]));
}

#[test]
fn penalty_that_does_not_fit_is_an_overflow() {
    let mut model = Model::new();
    let x = var("x", 1);
    let huge = Rational::new(LIMIT, 1).unwrap();
    model.add_constraint(constraint("c", ConstraintType::Equals(huge), &[(&x, 1)]));
    model.add_variable(x);
    assert_eq!(Tableau::new(&model).err(), Some(TableauError::Overflow));
}

#[test]
fn huge_right_hand_side_without_penalty_is_no_overflow() {
    let mut model = Model::new();
    let x = var("x", 1);
    let huge = Rational::new(LIMIT, 1).unwrap();
    model.add_constraint(constraint("c", ConstraintType::LessThan(huge), &[(&x, 1)]));
    model.add_variable(x);
    let t = Tableau::new(&model).unwrap();
    assert_eq!(t.get_rhs(1), Ok(huge));
}
