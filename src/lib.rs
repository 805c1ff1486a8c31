//! A minimal DPLL satisfiability solver for CNF formulas.
//!
//! The search is an exhaustive backtracking procedure over a partial
//! assignment, without propagation or learning. Its result is specified by
//! the spec function `search::search`, and proved sound and complete:
//! every assignment returned satisfies all clauses, and where none is
//! returned no total assignment does. Formulas are read from DIMACS CNF text.

pub mod clause;
pub mod assignment;
pub mod search;
pub mod dimacs;

pub use assignment::Assignment;
pub use clause::{Clause, Literal};
pub use dimacs::{ParseError, ParseFailure};
pub use search::Formula;
