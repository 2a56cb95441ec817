//! A verified SAT solver for formulas in conjunctive normal form.
//!
//! The solver is classical DPLL: a backtracking search over a trail of
//! assumptions, driven by unit propagation and pure-literal elimination.

pub mod assumptions;
pub mod clause;
pub mod dimacs;
pub mod dpll;
pub mod literal;
pub mod pure_literal_elimination;
pub mod unit_propagation;
