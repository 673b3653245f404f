//! Linear programming by the simplex method, in exact arithmetic.
//!
//! A [`Model`] holds named variables and constraints. A
//! [`simplex::Solver`] turns it into a [`tableau::Tableau`] and pivots until
//! the objective cannot grow any more. All numbers are exact fractions
//! ([`rational::Rational`]), so a result is either the true one or the
//! report that a value on the way was too large to hold.

pub mod gcd;
pub mod matrix;
pub mod model;
pub mod optimality;
pub mod rational;
pub mod simplex;
pub mod solution;
pub mod tableau;
pub mod theorems;

pub use model::{Constraint, ConstraintType, Model, Variable};
