pub mod assignment;
pub mod cdcl;
pub mod clause_deletion;
pub mod conflict_analysis;
pub mod heuristics;
pub mod implication_graph;
pub mod unit_propagation;
