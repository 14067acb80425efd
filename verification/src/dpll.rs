pub mod assignment;
pub mod assignment_stack;
pub mod chose_next_variable;
pub mod dpll;
pub mod heuristics;
pub mod refutation;
pub mod unit_propagation;
pub mod verify;
