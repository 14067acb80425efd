//! A SAT solver library: CNF formulas with two watched literals, a CDCL and a DPLL
//! search, a DIMACS reader and a SatELite-style preprocessor.

pub mod assignment;
pub mod branching;
pub mod cdcl;
pub mod cli;
pub mod cnf;
pub mod dpll;
pub mod parser;
pub mod preprocess;
pub mod text;
