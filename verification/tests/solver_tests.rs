use rustplex::rational::Rational;
use rustplex::simplex::{Outcome, Solver, SolverError};
use rustplex::{Constraint, ConstraintType, Model, Variable};

fn whole(n: i32) -> Rational {
    Rational::from_integer(n)
}

fn variable(name: &str, objective: i32) -> Variable {
    Variable::new(String::from(name))
        .with_lower_bound(Some(whole(0)))
        .with_objective(whole(objective))
}

fn less_than(name: &str, rhs: i32, terms: &[(&Variable, i32)]) -> Constraint {
    let mut c = Constraint::new(String::from(name), ConstraintType::LessThan(whole(rhs)));
    for (v, k) in terms {
        c.set_coefficient(v, whole(*k));
    }
    c
}

fn sample_model() -> Model {
    let mut model = Model::new();
    let x = variable("x", 3);
    let y = variable("y", 2);
    model.add_constraint(less_than("c1", 18, &[(&x, 2), (&y, 1)]));
    model.add_constraint(less_than("c2", 42, &[(&x, 2), (&y, 3)]));
    model.add_constraint(less_than("c3", 24, &[(&x, 3), (&y, 1)]));
    model.add_variable(x);
    model.add_variable(y);
    model
}

#[test]
fn sample_problem_reaches_thirty_three() {
    let mut solver = Solver::new(&sample_model()).unwrap();
    assert_eq!(solver.solve(), Outcome::Optimal(whole(33)));
}

#[test]
fn sample_problem_twice_gives_identical_values() {
    let model = sample_model();
    let first = Solver::new(&model).unwrap().solve();
    let second = Solver::new(&model).unwrap().solve();
    assert_eq!(first, second);
    match first {
        Outcome::Optimal(v) => {
            assert_eq!(v.numerator(), 33);
            assert_eq!(v.denominator(), 1);
        }
        _ => panic!("no optimum"),
    }
}

#[test]
fn no_constraints_and_nothing_to_gain_ends_at_zero() {
    let mut model = Model::new();
    model.add_variable(variable("x", 0));
    model.add_variable(variable("y", -4));
    let mut solver = Solver::new(&model).unwrap();
    assert!(!solver.should_continue());
    assert_eq!(solver.solve(), Outcome::Optimal(whole(0)));
}

#[test]
fn column_without_positive_entry_is_unbounded() {
    let mut model = Model::new();
    let x = variable("x", 1);
    let y = variable("y", 0);
    model.add_constraint(less_than("c", 4, &[(&x, -1), (&y, 1)]));
    model.add_variable(x);
    model.add_variable(y);
    let mut solver = Solver::new(&model).unwrap();
    assert_eq!(solver.solve(), Outcome::Unbounded);
}

#[test]
fn no_constraints_and_something_to_gain_is_unbounded() {
    let mut model = Model::new();
    model.add_variable(variable("x", 1));
    let mut solver = Solver::new(&model).unwrap();
    assert_eq!(solver.solve(), Outcome::Unbounded);
}

#[test]
fn nonzero_lower_bound_is_unsupported() {
    let mut model = Model::new();
    model.add_variable(Variable::new(String::from("x")).with_lower_bound(Some(whole(1))));
    assert_eq!(Solver::new(&model).err(), Some(SolverError::UnsupportedConstraint));
}

#[test]
fn fixed_variable_is_unsupported() {
    let mut model = Model::new();
    model.add_variable(
        Variable::new(String::from("x"))
            .with_lower_bound(Some(whole(0)))
            .with_upper_bound(Some(whole(0))),
    );
    assert_eq!(Solver::new(&model).err(), Some(SolverError::UnsupportedConstraint));
}

#[test]
fn iteration_limit_is_enforced() {
    let mut solver = Solver::new(&sample_model()).unwrap();
    solver.set_iteration_limit(1);
    assert_eq!(solver.solve(), Outcome::IterationLimitExceeded);
}

#[test]
fn upper_bound_limits_the_objective() {
    let mut model = Model::new();
    model.add_variable(variable("x", 2).with_upper_bound(Some(whole(7))));
    let mut solver = Solver::new(&model).unwrap();
    assert_eq!(solver.solve(), Outcome::Optimal(whole(14)));
}

#[test]
fn equality_constraint_is_met() {
    // maximize x + y subject to x + y = 5, x <= 3
    let mut model = Model::new();
    let x = variable("x", 1);
    let y = variable("y", 1);
    let mut c = Constraint::new(String::from("sum"), ConstraintType::Equals(whole(5)));
    c.set_coefficient(&x, whole(1));
    c.set_coefficient(&y, whole(1));
    model.add_constraint(c);
    model.add_variable(x);
    model.add_variable(y);
    let mut solver = Solver::new(&model).unwrap();
    assert_eq!(solver.solve(), Outcome::Optimal(whole(5)));
}

#[test]
fn greater_than_constraint_is_met() {
    // maximize -x subject to x >= 1
    let mut model = Model::new();
    let x = variable("x", -1);
    let mut c = Constraint::new(String::from("floor"), ConstraintType::GreaterThan(whole(1)));
    c.set_coefficient(&x, whole(1));
    model.add_constraint(c);
    model.add_variable(x);
    let mut solver = Solver::new(&model).unwrap();
    assert_eq!(solver.solve(), Outcome::Optimal(whole(-1)));
}

#[test]
fn contradictory_constraints_are_infeasible() {
    // x <= 1 and x >= 2
    let mut model = Model::new();
    let x = variable("x", 1);
    model.add_constraint(less_than("low", 1, &[(&x, 1)]));
    let mut c = Constraint::new(String::from("high"), ConstraintType::GreaterThan(whole(2)));
    c.set_coefficient(&x, whole(1));
    model.add_constraint(c);
    model.add_variable(x);
    let mut solver = Solver::new(&model).unwrap();
    assert_eq!(solver.solve(), Outcome::Infeasible);
}

fn huge() -> Rational {
    Rational::new(i64::MAX, 1).unwrap()
}

fn ratio(num: i64, den: i64) -> Rational {
    Rational::new(num, den).unwrap()
}

fn tableau_row(solver: &Solver, row: usize) -> Vec<Rational> {
    let t = solver.tableau();
    (0..t.num_cols()).map(|column| t.get_value(row, column).unwrap()).collect()
}

#[test]
fn new_solver_has_the_default_limit_and_the_start_tableau() {
    let solver = Solver::new(&sample_model()).unwrap();
    assert_eq!(solver.objective_value(), whole(0));
    assert!(solver.should_continue());
    assert_eq!(solver.tableau().num_rows(), 4);
    assert_eq!(solver.tableau().num_cols(), 7);
    assert_eq!(rustplex::simplex::DEFAULT_ITERATION_LIMIT, 10_000);
}

#[test]
fn entering_column_is_the_most_negative() {
    let solver = Solver::new(&sample_model()).unwrap();
    assert_eq!(solver.choose_pivot_column(), 2);
    let mut model = Model::new();
    model.add_variable(variable("a", 1));
    model.add_variable(variable("b", 5));
    model.add_variable(variable("c", 2));
    assert_eq!(Solver::new(&model).unwrap().choose_pivot_column(), 3);
}

#[test]
fn entering_column_tie_goes_to_the_lowest_index() {
    let mut model = Model::new();
    model.add_variable(variable("a", 1));
    model.add_variable(variable("b", 4));
    model.add_variable(variable("c", 4));
    assert_eq!(Solver::new(&model).unwrap().choose_pivot_column(), 3);
}

#[test]
fn entering_column_is_chosen_even_if_none_is_negative() {
    let mut model = Model::new();
    model.add_variable(variable("a", -1));
    model.add_variable(variable("b", -3));
    model.add_variable(variable("c", -1));
    assert_eq!(Solver::new(&model).unwrap().choose_pivot_column(), 2);
}

#[test]
fn ratio_test_of_single_rows() {
    let solver = Solver::new(&sample_model()).unwrap();
    assert_eq!(solver.get_ratio_test(1, 2), Ok(Some(whole(9))));
    assert_eq!(solver.get_ratio_test(2, 2), Ok(Some(whole(21))));
    assert_eq!(solver.get_ratio_test(3, 2), Ok(Some(whole(8))));
    assert_eq!(solver.get_ratio_test(2, 3), Ok(Some(whole(14))));
    assert_eq!(solver.get_ratio_test(1, 5), Ok(None));
    assert_eq!(solver.get_ratio_test(0, 2), Ok(None));
}

#[test]
fn leaving_row_has_the_least_ratio() {
    let solver = Solver::new(&sample_model()).unwrap();
    assert_eq!(solver.choose_pivot_row(2), Ok(Some(3)));
    assert_eq!(solver.choose_pivot_row(3), Ok(Some(2)));
    assert_eq!(solver.choose_pivot_row(4), Ok(Some(1)));
}

#[test]
fn leaving_row_tie_goes_to_the_lowest_index() {
    let mut model = Model::new();
    let x = variable("x", 1);
    model.add_constraint(less_than("far", 10, &[(&x, 1)]));
    model.add_constraint(less_than("first", 4, &[(&x, 1)]));
    model.add_constraint(less_than("second", 8, &[(&x, 2)]));
    model.add_variable(x);
    let solver = Solver::new(&model).unwrap();
    assert_eq!(solver.choose_pivot_row(2), Ok(Some(2)));
}

#[test]
fn leaving_row_is_missing_without_a_positive_entry() {
    let mut model = Model::new();
    let x = variable("x", 1);
    model.add_constraint(less_than("a", 4, &[(&x, -1)]));
    model.add_constraint(less_than("b", 4, &[(&x, 0)]));
    model.add_variable(x);
    let solver = Solver::new(&model).unwrap();
    assert_eq!(solver.choose_pivot_row(2), Ok(None));
}

#[test]
fn pivot_of_the_sample_tableau() {
    let mut solver = Solver::new(&sample_model()).unwrap();
    assert_eq!(solver.pivot(3, 2), Ok(()));
    assert_eq!(
        tableau_row(&solver, 3),
        vec![whole(8), whole(0), whole(1), ratio(1, 3), whole(0), whole(0), ratio(1, 3)]
    );
    assert_eq!(
        tableau_row(&solver, 0),
        vec![whole(24), whole(1), whole(0), whole(-1), whole(0), whole(0), whole(1)]
    );
    assert_eq!(
        tableau_row(&solver, 1),
        vec![whole(2), whole(0), whole(0), ratio(1, 3), whole(1), whole(0), ratio(-2, 3)]
    );
    assert_eq!(
        tableau_row(&solver, 2),
        vec![whole(26), whole(0), whole(0), ratio(7, 3), whole(0), whole(1), ratio(-2, 3)]
    );
    assert_eq!(solver.tableau().get_basic_variable(3), Ok(2));
    assert_eq!(solver.tableau().get_basic_variable(1), Ok(4));
}

#[test]
fn normalize_and_eliminate_by_hand() {
    let mut solver = Solver::new(&sample_model()).unwrap();
    assert_eq!(solver.normalize_pivot_row(1, 2), Ok(()));
    assert_eq!(
        tableau_row(&solver, 1),
        vec![whole(9), whole(0), whole(1), ratio(1, 2), ratio(1, 2), whole(0), whole(0)]
    );
    assert_eq!(solver.eliminate_row(2, 1, 2), Ok(()));
    assert_eq!(
        tableau_row(&solver, 2),
        vec![whole(24), whole(0), whole(0), whole(2), whole(-1), whole(1), whole(0)]
    );
    assert_eq!(
        tableau_row(&solver, 3),
        vec![whole(24), whole(0), whole(3), whole(1), whole(0), whole(0), whole(1)]
    );
}

#[test]
fn objective_never_falls_from_step_to_step() {
    let mut solver = Solver::new(&sample_model()).unwrap();
    let mut values = vec![solver.objective_value()];
    let outcome = loop {
        match solver.step() {
            Some(outcome) => break outcome,
            None => values.push(solver.objective_value()),
        }
    };
    assert_eq!(outcome, Outcome::Optimal(whole(33)));
    assert_eq!(values, vec![whole(0), whole(24), whole(30), whole(33)]);
    for pair in values.windows(2) {
        assert!(!pair[1].less_than(&pair[0]));
    }
    assert_eq!(solver.step(), Some(Outcome::Optimal(whole(33))));
}

#[test]
fn values_of_the_variables_at_the_optimum() {
    let mut solver = Solver::new(&sample_model()).unwrap();
    assert_eq!(solver.variable_value(&String::from("x")), Some(whole(0)));
    assert_eq!(solver.solve(), Outcome::Optimal(whole(33)));
    assert_eq!(solver.variable_value(&String::from("x")), Some(whole(3)));
    assert_eq!(solver.variable_value(&String::from("y")), Some(whole(12)));
    assert_eq!(solver.variable_value(&String::from("z")), None);
    assert_eq!(solver.objective_value(), whole(33));
}

#[test]
fn variable_stays_at_or_below_its_upper_bound() {
    let mut model = Model::new();
    let x = variable("x", 5).with_upper_bound(Some(whole(4)));
    let y = variable("y", 1).with_upper_bound(Some(whole(10)));
    model.add_constraint(less_than("c", 9, &[(&x, 1), (&y, 1)]));
    model.add_variable(x);
    model.add_variable(y);
    let mut solver = Solver::new(&model).unwrap();
    loop {
        let x_now = solver.variable_value(&String::from("x")).unwrap();
        let y_now = solver.variable_value(&String::from("y")).unwrap();
        assert!(!whole(4).less_than(&x_now));
        assert!(!whole(10).less_than(&y_now));
        if let Some(outcome) = solver.step() {
            assert_eq!(outcome, Outcome::Optimal(whole(25)));
            break;
        }
    }
    assert_eq!(solver.variable_value(&String::from("x")), Some(whole(4)));
    assert_eq!(solver.variable_value(&String::from("y")), Some(whole(5)));
}

#[test]
fn limit_of_zero_stops_before_the_first_pivot() {
    let mut solver = Solver::new(&sample_model()).unwrap();
    solver.set_iteration_limit(0);
    assert_eq!(solver.solve(), Outcome::IterationLimitExceeded);
    assert_eq!(solver.objective_value(), whole(0));
    let mut done = Solver::new(&Model::new()).unwrap();
    done.set_iteration_limit(0);
    assert_eq!(done.solve(), Outcome::Optimal(whole(0)));
}

#[test]
fn limit_that_is_just_enough() {
    let mut solver = Solver::new(&sample_model()).unwrap();
    solver.set_iteration_limit(3);
    assert_eq!(solver.solve(), Outcome::Optimal(whole(33)));
    let mut short = Solver::new(&sample_model()).unwrap();
    short.set_iteration_limit(2);
    assert_eq!(short.solve(), Outcome::IterationLimitExceeded);
    assert_eq!(short.objective_value(), whole(30));
}

#[test]
fn product_that_does_not_fit_ends_in_overflow() {
    let mut model = Model::new();
    let x = Variable::new(String::from("x")).with_objective(huge());
    model.add_constraint(less_than("c", 2, &[(&x, 1)]));
    model.add_variable(x);
    let mut solver = Solver::new(&model).unwrap();
    assert_eq!(solver.pivot(1, 2), Err(SolverError::Overflow));
    let mut again = Solver::new(&model).unwrap();
    assert_eq!(again.solve(), Outcome::Overflow);
}

#[test]
fn ratio_that_does_not_fit_ends_in_overflow() {
    let mut model = Model::new();
    let x = variable("x", 1);
    let mut c = Constraint::new(String::from("c"), ConstraintType::LessThan(huge()));
    c.set_coefficient(&x, ratio(1, 2));
    model.add_constraint(c);
    model.add_variable(x);
    let mut solver = Solver::new(&model).unwrap();
    assert_eq!(solver.get_ratio_test(1, 2), Err(SolverError::Overflow));
    assert_eq!(solver.choose_pivot_row(2), Err(SolverError::Overflow));
    assert_eq!(solver.normalize_pivot_row(1, 2), Err(SolverError::Overflow));
    let mut again = Solver::new(&model).unwrap();
    assert_eq!(again.solve(), Outcome::Overflow);
}

#[test]
fn penalty_that_does_not_fit_fails_the_solver() {
    let mut model = Model::new();
    let x = variable("x", 1);
    let mut c = Constraint::new(String::from("c"), ConstraintType::Equals(huge()));
    c.set_coefficient(&x, whole(1));
    model.add_constraint(c);
    model.add_variable(x);
    assert_eq!(Solver::new(&model).err(), Some(SolverError::Overflow));
}

#[test]
fn unsupported_bound_comes_before_overflow() {
    let mut model = Model::new();
    let x = variable("x", 1).with_lower_bound(Some(whole(2)));
    let mut c = Constraint::new(String::from("c"), ConstraintType::Equals(huge()));
    c.set_coefficient(&x, whole(1));
    model.add_constraint(c);
    model.add_variable(x);
    assert_eq!(Solver::new(&model).err(), Some(SolverError::UnsupportedConstraint));
}

#[test]
fn negative_right_hand_side_is_fixed_before_solving() {
    // -x <= -2 is x >= 2; maximize -x
    let mut model = Model::new();
    let x = variable("x", -1);
    model.add_constraint(less_than("c", -2, &[(&x, -1)]));
    model.add_variable(x);
    let mut solver = Solver::new(&model).unwrap();
    assert_eq!(solver.solve(), Outcome::Optimal(whole(-2)));
    assert_eq!(solver.variable_value(&String::from("x")), Some(whole(2)));
}

#[test]
fn conclude_reports_a_left_over_artificial_variable() {
    let mut model = Model::new();
    let x = variable("x", 0);
    let mut c = Constraint::new(String::from("c"), ConstraintType::Equals(whole(3)));
    c.set_coefficient(&x, whole(0));
    model.add_constraint(c);
    model.add_variable(x);
    let mut solver = Solver::new(&model).unwrap();
    assert!(!solver.should_continue());
    assert_eq!(solver.conclude(), Outcome::Infeasible);
    assert_eq!(solver.solve(), Outcome::Infeasible);
}

#[test]
fn artificial_variable_at_zero_is_no_infeasibility() {
    let mut model = Model::new();
    let x = variable("x", 0);
    let mut c = Constraint::new(String::from("c"), ConstraintType::Equals(whole(0)));
    c.set_coefficient(&x, whole(0));
    model.add_constraint(c);
    model.add_variable(x);
    let mut solver = Solver::new(&model).unwrap();
    assert_eq!(solver.solve(), Outcome::Optimal(whole(0)));
}

#[test]
fn fractions_stay_exact() {
    // maximize x + y subject to 3x + y <= 1, x + 3y <= 1: optimum 1/2 at (1/4, 1/4)
    let mut model = Model::new();
    let x = variable("x", 1);
    let y = variable("y", 1);
    model.add_constraint(less_than("a", 1, &[(&x, 3), (&y, 1)]));
    model.add_constraint(less_than("b", 1, &[(&x, 1), (&y, 3)]));
    model.add_variable(x);
    model.add_variable(y);
    let mut solver = Solver::new(&model).unwrap();
    assert_eq!(solver.solve(), Outcome::Optimal(ratio(1, 2)));
    assert_eq!(solver.variable_value(&String::from("x")), Some(ratio(1, 4)));
    assert_eq!(solver.variable_value(&String::from("y")), Some(ratio(1, 4)));
}

#[test]
fn basic_solution_meets_the_constraints_at_the_optimum() {
    let model = sample_model();
    let mut solver = Solver::new(&model).unwrap();
    assert_eq!(solver.solve(), Outcome::Optimal(whole(33)));
    let x = solver.variable_value(&String::from("x")).unwrap();
    let y = solver.variable_value(&String::from("y")).unwrap();
    let objective = whole(3).checked_mul(x).unwrap().checked_add(whole(2).checked_mul(y).unwrap()).unwrap();
    assert_eq!(objective, whole(33));
    for (constraint, rhs) in model.constraints().iter().zip([18, 42, 24]) {
        let left = constraint
            .get_coefficient(&model.variables()[0])
            .checked_mul(x)
            .unwrap()
            .checked_add(constraint.get_coefficient(&model.variables()[1]).checked_mul(y).unwrap())
            .unwrap();
        assert!(!whole(rhs).less_than(&left));
    }
    assert_eq!(solver.tableau().basic_value(1), whole(33));
}

#[test]
fn least_value_by_negation() {
    // least value of x + y subject to x + 2y >= 4, 3x + y >= 6: 14/5 at (8/5, 6/5)
    let mut model = Model::new();
    let x = variable("x", -1);
    let y = variable("y", -1);
    let mut a = Constraint::new(String::from("a"), ConstraintType::GreaterThan(whole(4)));
    a.set_coefficient(&x, whole(1));
    a.set_coefficient(&y, whole(2));
    let mut b = Constraint::new(String::from("b"), ConstraintType::GreaterThan(whole(6)));
    b.set_coefficient(&x, whole(3));
    b.set_coefficient(&y, whole(1));
    model.add_constraint(a);
    model.add_constraint(b);
    model.add_variable(x);
    model.add_variable(y);
    let mut solver = Solver::new(&model).unwrap();
    assert_eq!(solver.solve(), Outcome::Optimal(ratio(-14, 5)));
    assert_eq!(solver.variable_value(&String::from("x")), Some(ratio(8, 5)));
    assert_eq!(solver.variable_value(&String::from("y")), Some(ratio(6, 5)));
}
