//! A DPLL satisfiability solver over clauses of integer-identified variables,
//! with an incremental satisfied-clause tracker that is rolled back on failure.

pub mod clause;
pub mod cnf;
pub mod dimacs;
pub mod occurrence;
pub mod rules;
pub mod search;
pub mod sudoku;
pub mod theorems;
pub mod trail;
pub mod varset;
