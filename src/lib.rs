//! A DPLL satisfiability solver for formulas in conjunctive normal form.
//!
//! The clause store keeps, per clause, the number of literals not falsified by
//! the current assignment; the occurrence index lists, per variable, the
//! clauses that mention it; the trail records assignments in order so that
//! search can backtrack chronologically.

pub mod model;
pub mod counting;
pub mod trail;
pub mod propagate;
pub mod search;
pub mod parse;
pub mod load;
pub mod laws;
pub mod sudoku;

pub use model::{Lit, Node, Solver, SolverError, Propagation, SearchOutcome};
pub use parse::parse_dimacs;
pub use sudoku::sudoku_givens;
