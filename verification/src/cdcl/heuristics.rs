pub mod restart;
pub mod trivial;

use crate::cdcl::assignment::Assignment;
use crate::cnf::cnf_formula::CnfFormula;
use vstd::prelude::*;

verus! {

/// What the solver has done so far, as restart heuristics see it.
#[derive(Debug)]
pub struct SolverStats {
    pub conflict_count: usize,
    pub number_of_restarts: usize,
}

impl SolverStats {
    pub fn new() -> (r: Self)
        ensures
            r.conflict_count == 0,
            r.number_of_restarts == 0,
    {
        SolverStats { conflict_count: 0, number_of_restarts: 0 }
    }
}

/// A decision heuristic: picks the next assignment to try.
pub trait Heuristic {
    fn chose_next_assignment(&mut self, cnf_formula: &CnfFormula) -> (r: Assignment)
        requires
            cnf_formula.wf(),
            exists|i: int| 0 <= i < cnf_formula.assignments@.len() && cnf_formula.assignments@[i] is None,
        ensures
            1 <= r.variable_id <= cnf_formula.variable_count,
            r.reason is None,
    ;
}

/// A restart heuristic: decides after each conflict whether the search restarts.
pub trait RestartHeuristic {
    fn should_restart(&mut self, stats: &SolverStats) -> bool;
}

} // verus!
