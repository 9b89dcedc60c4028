//! A DPLL solver for propositional formulas in conjunctive normal form.
//!
//! The instance store holds a formula and the state of its search. The search
//! engine propagates forced literals, eliminates pure literals, and branches on
//! a literal that a heuristic picks, going back to a restore point when a
//! branch fails. Its verdict is proved: `solve` returns true exactly when some
//! assignment satisfies the formula, and then the assignment of the instance
//! is one.
pub mod chance;
pub mod clock;
pub mod cnf;
pub mod dimacs_parser;
pub mod fx;
pub mod heuristic;
pub mod model;
pub mod portfolio;
pub mod propagate;
pub mod pure;
pub mod sat_instance;
pub mod search;
pub mod text;
