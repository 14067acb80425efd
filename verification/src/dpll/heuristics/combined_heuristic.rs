use crate::cnf::cnf_formula::CnfFormula;
use crate::dpll::assignment::Assignment;
use crate::dpll::heuristics::{Heuristic, Stats};
use vstd::prelude::*;

verus! {

/// Uses an expensive heuristic near the root of the search, where the trail is shorter than
/// `threshold`, and a cheap one below.
pub struct CombinedHeuristic {
    pub expensive: Box<dyn Heuristic>,
    pub cheap: Box<dyn Heuristic>,
    pub threshold: i32,
}

impl Heuristic for CombinedHeuristic {
    fn chose_next_assignment(&mut self, cnf_formula: &CnfFormula, decision_level: i32) -> (r: Assignment) {
        if decision_level < self.threshold {
            self.expensive.chose_next_assignment(cnf_formula, decision_level)
        } else {
            self.cheap.chose_next_assignment(cnf_formula, decision_level)
        }
    }

    fn is_learning(&self) -> (r: bool)
        ensures
            !r,
    {
        false
    }

    fn feedback(&mut self, feedback: Stats) {
    }
}

impl CombinedHeuristic {
    pub fn new(expensive: Box<dyn Heuristic>, cheap: Box<dyn Heuristic>, threshold: i32) -> (r: Self)
        ensures
            r.threshold == threshold,
    {
        Self { expensive, cheap, threshold }
    }
}

} // verus!
