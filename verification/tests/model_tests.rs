use rustplex::rational::Rational;
use rustplex::simplex::{Solver, SolverError};
use rustplex::{Constraint, ConstraintType, Model, Variable};

fn k(v: i32) -> Rational {
    Rational::from_integer(v)
}

fn named(name: &str) -> Variable {
    Variable::new(String::from(name))
}

fn rhs_of(t: &ConstraintType) -> Rational {
    match t {
        ConstraintType::LessThan(r) => *r,
        ConstraintType::Equals(r) => *r,
        ConstraintType::GreaterThan(r) => *r,
    }
}

#[test]
fn variable_starts_without_bounds_and_objective() {
    let v = named("x");
    assert_eq!(v.name(), "x");
    assert_eq!(v.objective_value(), k(0));
    assert_eq!(v.lower_bound(), None);
    assert_eq!(v.upper_bound(), None);
    assert!(v.has_supported_bounds());
}

#[test]
fn variable_builders_set_one_part_each() {
    let v = named("x").with_objective(k(3)).with_lower_bound(Some(k(0))).with_upper_bound(Some(k(9)));
    assert_eq!(v.name(), "x");
    assert_eq!(v.objective_value(), k(3));
    assert_eq!(v.lower_bound(), Some(k(0)));
    assert_eq!(v.upper_bound(), Some(k(9)));
    let w = v.with_upper_bound(None).with_lower_bound(None);
    assert_eq!(w.objective_value(), k(3));
    assert_eq!(w.lower_bound(), None);
    assert_eq!(w.upper_bound(), None);
}

#[test]
fn variable_bounds_that_cannot_be_honoured() {
    assert!(named("a").with_lower_bound(Some(k(0))).has_supported_bounds());
    assert!(named("a").with_upper_bound(Some(k(0))).has_supported_bounds());
    assert!(named("a").with_lower_bound(Some(k(0))).with_upper_bound(Some(k(4))).has_supported_bounds());
    assert!(!named("a").with_lower_bound(Some(k(1))).has_supported_bounds());
    assert!(!named("a").with_lower_bound(Some(k(-1))).has_supported_bounds());
    assert!(!named("a").with_lower_bound(Some(k(0))).with_upper_bound(Some(k(0))).has_supported_bounds());
    assert!(!named("a").with_lower_bound(Some(k(2))).with_upper_bound(Some(k(2))).has_supported_bounds());
}

#[test]
fn constraint_coefficients_are_kept_by_name() {
    let x = named("x");
    let y = named("y");
    let z = named("z");
    let mut c = Constraint::new(String::from("c"), ConstraintType::LessThan(k(18)));
    assert_eq!(c.name(), "c");
    assert_eq!(c.rhs(), k(18));
    assert_eq!(c.get_coefficient(&x), k(0));
    c.set_coefficient(&x, k(2));
    c.set_coefficient(&y, k(1));
    assert_eq!(c.get_coefficient(&x), k(2));
    assert_eq!(c.get_coefficient(&y), k(1));
    assert_eq!(c.get_coefficient(&z), k(0));
    c.set_coefficient(&x, k(7));
    assert_eq!(c.get_coefficient(&x), k(7));
    assert_eq!(c.get_coefficient(&y), k(1));
    assert_eq!(c.coefficient_of(&String::from("y")), k(1));
}

#[test]
fn fix_negative_rhs_turns_the_constraint_round() {
    let x = named("x");
    let y = named("y");
    let mut c = Constraint::new(String::from("c"), ConstraintType::LessThan(k(-4)));
    c.set_coefficient(&x, k(2));
    c.set_coefficient(&y, k(-3));
    c.fix_negative_rhs();
    assert!(matches!(c.constraint_type(), ConstraintType::GreaterThan(_)));
    assert_eq!(c.rhs(), k(4));
    assert_eq!(c.get_coefficient(&x), k(-2));
    assert_eq!(c.get_coefficient(&y), k(3));

    let mut e = Constraint::new(String::from("e"), ConstraintType::Equals(k(-1)));
    e.set_coefficient(&x, k(1));
    e.fix_negative_rhs();
    assert!(matches!(e.constraint_type(), ConstraintType::Equals(_)));
    assert_eq!(e.rhs(), k(1));
    assert_eq!(e.get_coefficient(&x), k(-1));

    let mut g = Constraint::new(String::from("g"), ConstraintType::GreaterThan(k(-6)));
    g.fix_negative_rhs();
    assert!(matches!(g.constraint_type(), ConstraintType::LessThan(_)));
    assert_eq!(g.rhs(), k(6));
}

#[test]
fn unknown_variables_are_listed_once() {
    let x = named("x");
    let ghost = named("ghost");
    let other = named("other");
    let mut c = Constraint::new(String::from("c"), ConstraintType::LessThan(k(1)));
    c.set_coefficient(&x, k(1));
    c.set_coefficient(&ghost, k(2));
    c.set_coefficient(&other, k(3));
    c.set_coefficient(&ghost, k(4));
    let known = vec![named("x"), named("y")];
    let mut unknown = c.unknown_variables(&known);
    unknown.sort();
    assert_eq!(unknown, vec![String::from("ghost"), String::from("other")]);
    assert!(c.unknown_variables(&vec![named("x"), named("ghost"), named("other")]).is_empty());
}

#[test]
fn model_keeps_one_variable_and_one_constraint_per_name() {
    let mut model = Model::new();
    assert!(model.variables().is_empty());
    assert!(model.constraints().is_empty());
    model.add_variable(named("x").with_objective(k(1)));
    model.add_variable(named("y").with_objective(k(2)));
    model.add_variable(named("x").with_objective(k(5)));
    assert_eq!(model.variables().len(), 2);
    assert_eq!(model.variables()[0].name(), "x");
    assert_eq!(model.variables()[0].objective_value(), k(5));
    assert_eq!(model.variables()[1].name(), "y");
    model.add_constraint(Constraint::new(String::from("a"), ConstraintType::LessThan(k(1))));
    model.add_constraint(Constraint::new(String::from("b"), ConstraintType::LessThan(k(2))));
    model.add_constraint(Constraint::new(String::from("a"), ConstraintType::Equals(k(3))));
    assert_eq!(model.constraints().len(), 2);
    assert_eq!(model.constraints()[0].name(), "a");
    assert_eq!(model.constraints()[0].rhs(), k(3));
    assert_eq!(model.constraints()[1].name(), "b");
}

#[test]
fn preprocessing_fixes_negative_right_hand_sides() {
    let x = named("x");
    let mut model = Model::new();
    let mut c = Constraint::new(String::from("c"), ConstraintType::GreaterThan(k(-5)));
    c.set_coefficient(&x, k(-1));
    model.add_constraint(c);
    model.add_constraint(Constraint::new(String::from("d"), ConstraintType::LessThan(k(5))));
    model.add_variable(x);
    assert_eq!(Solver::preprocess_model(&mut model), Ok(()));
    let fixed = &model.constraints()[0];
    assert!(matches!(fixed.constraint_type(), ConstraintType::LessThan(_)));
    assert_eq!(fixed.rhs(), k(5));
    assert_eq!(fixed.get_coefficient(&model.variables()[0]), k(1));
    assert!(matches!(model.constraints()[1].constraint_type(), ConstraintType::LessThan(_)));
    assert_eq!(model.constraints()[1].rhs(), k(5));
}

#[test]
fn preprocessing_twice_does_not_turn_a_constraint_back() {
    let x = named("x");
    let mut model = Model::new();
    let mut c = Constraint::new(String::from("c"), ConstraintType::LessThan(k(-5)));
    c.set_coefficient(&x, k(2));
    model.add_constraint(c);
    model.add_variable(x);
    assert_eq!(Solver::preprocess_model(&mut model), Ok(()));
    assert_eq!(Solver::preprocess_model(&mut model), Ok(()));
    let fixed = &model.constraints()[0];
    assert!(matches!(fixed.constraint_type(), ConstraintType::GreaterThan(_)));
    assert_eq!(fixed.rhs(), k(5));
    assert_eq!(fixed.get_coefficient(&model.variables()[0]), k(-2));
    assert_eq!(model.constraints().len(), 1);
}

#[test]
fn preprocessing_adds_each_upper_bound_once() {
    let mut model = Model::new();
    model.add_variable(named("x").with_upper_bound(Some(k(7))));
    model.add_variable(named("y"));
    model.add_variable(named("z").with_lower_bound(Some(k(0))).with_upper_bound(Some(k(2))));
    model.add_constraint(Constraint::new(String::from("c"), ConstraintType::LessThan(k(1))));
    assert_eq!(Solver::preprocess_model(&mut model), Ok(()));
    let names: Vec<&str> = model.constraints().iter().map(|c| c.name()).collect();
    assert_eq!(names, vec!["c", "x_ub", "z_ub"]);
    let bound = &model.constraints()[1];
    assert!(matches!(bound.constraint_type(), ConstraintType::LessThan(_)));
    assert_eq!(rhs_of(bound.constraint_type()), k(7));
    assert_eq!(bound.get_coefficient(&model.variables()[0]), k(1));
    assert_eq!(bound.get_coefficient(&model.variables()[1]), k(0));
    assert_eq!(bound.get_coefficient(&model.variables()[2]), k(0));
    assert_eq!(model.constraints()[2].rhs(), k(2));
    assert_eq!(model.constraints()[2].get_coefficient(&model.variables()[2]), k(1));
    assert_eq!(Solver::preprocess_model(&mut model), Ok(()));
    assert_eq!(model.constraints().len(), 3);
}

#[test]
fn preprocessing_replaces_a_constraint_that_bears_a_bound_name() {
    let mut model = Model::new();
    model.add_variable(named("x").with_upper_bound(Some(k(7))));
    model.add_constraint(Constraint::new(String::from("x_ub"), ConstraintType::Equals(k(100))));
    assert_eq!(Solver::preprocess_model(&mut model), Ok(()));
    assert_eq!(model.constraints().len(), 1);
    assert_eq!(model.constraints()[0].name(), "x_ub");
    assert_eq!(model.constraints()[0].rhs(), k(7));
    assert!(matches!(model.constraints()[0].constraint_type(), ConstraintType::LessThan(_)));
}

#[test]
fn preprocessing_leaves_an_unsupported_model_alone() {
    let x = named("x");
    let mut model = Model::new();
    let mut c = Constraint::new(String::from("c"), ConstraintType::LessThan(k(-5)));
    c.set_coefficient(&x, k(2));
    model.add_constraint(c);
    model.add_variable(x.with_lower_bound(Some(k(3))).with_upper_bound(Some(k(8))));
    assert!(!model.has_supported_bounds());
    assert_eq!(Solver::preprocess_model(&mut model), Err(SolverError::UnsupportedConstraint));
    assert_eq!(model.constraints().len(), 1);
    assert_eq!(model.constraints()[0].rhs(), k(-5));
}

#[test]
fn solver_does_not_change_the_callers_model() {
    let x = named("x").with_upper_bound(Some(k(4))).with_objective(k(1));
    let mut model = Model::new();
    let mut c = Constraint::new(String::from("c"), ConstraintType::GreaterThan(k(-5)));
    c.set_coefficient(&x, k(-1));
    model.add_constraint(c);
    model.add_variable(x);
    let solver = Solver::new(&model).unwrap();
    assert_eq!(model.constraints().len(), 1);
    assert_eq!(model.constraints()[0].rhs(), k(-5));
    assert_eq!(solver.model().constraints().len(), 2);
    assert_eq!(solver.model().constraints()[0].rhs(), k(5));
    assert_eq!(solver.model().constraints()[1].name(), "x_ub");
}
