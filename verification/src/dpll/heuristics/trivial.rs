use crate::cnf::cnf_formula::CnfFormula;
use crate::dpll::assignment::Assignment;
use crate::dpll::heuristics::{Heuristic, Stats};
use vstd::prelude::*;

verus! {

/// Sets the first unassigned variable to true.
#[derive(Debug)]
pub struct Trivial;

impl Heuristic for Trivial {
    fn chose_next_assignment(&mut self, cnf_formula: &CnfFormula, decision_level: i32) -> (r: Assignment)
        ensures
            r.value,
            cnf_formula.assignments@[r.variable_id - 1] is None,
            forall|i: int| 0 <= i < r.variable_id - 1 ==> cnf_formula.assignments@[i] is Some,
    {
        let v = cnf_formula.variables.find_unassigned(cnf_formula.assignments.as_slice());
        Assignment::new(v, true)
    }

    fn is_learning(&self) -> (r: bool)
        ensures
            !r,
    {
        false
    }

    fn feedback(&mut self, feedback: Stats) {
    }
}

} // verus!
