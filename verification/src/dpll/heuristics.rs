pub mod combined_heuristic;
pub mod dlcs;
pub mod dlcs1;
pub mod dlis;
pub mod from_shortest_clause;
pub mod heuristic;
pub mod jeroslaw_wang;
pub mod mom;
pub mod static_jw;
pub mod trivial;

use crate::cnf::cnf_formula::CnfFormula;
use crate::dpll::assignment::Assignment;
use vstd::prelude::*;

verus! {

/// What a branching step led to, as learning heuristics see it.
#[derive(Debug, Clone, Copy)]
pub struct Stats {
    pub unit_clauses: usize,
}

/// A branching heuristic of the DPLL search.
pub trait Heuristic {
    /// Picks the next branching assignment; `decision_level` is the length of the trail.
    fn chose_next_assignment(&mut self, cnf_formula: &CnfFormula, decision_level: i32) -> (r: Assignment)
        requires
            cnf_formula.wf(),
            exists|i: int| 0 <= i < cnf_formula.assignments@.len() && cnf_formula.assignments@[i] is None,
        ensures
            1 <= r.variable_id <= cnf_formula.variable_count,
            cnf_formula.assignments@[r.variable_id - 1] is None,
    ;

    /// Whether the heuristic wants feedback after each branching step.
    fn is_learning(&self) -> bool;

    /// Tells a learning heuristic how many unit clauses its last choice propagated.
    fn feedback(&mut self, feedback: Stats);
}

} // verus!
