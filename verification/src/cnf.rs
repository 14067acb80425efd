pub mod clause;
pub mod cnf_formula;
pub mod literal;
pub mod literals;
pub mod parser;
pub mod variable;
pub mod variables;
