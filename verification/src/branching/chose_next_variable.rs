use crate::assignment::single_assignment::{AssignmentReason, AssignmentValue, SingleAssignment};
use crate::cnf::cnf_formula::CnfFormula;
use crate::dpll::chose_next_variable::{chose_from_shortest_clause, has_open_choice, shortest_clause_choice};
use vstd::prelude::*;

verus! {

/// A way to pick the next branching variable.
pub trait ChooseNextVariable {
    fn chose(cnf_formula: &CnfFormula) -> (r: SingleAssignment)
        requires
            cnf_formula.wf(),
            has_open_choice(cnf_formula),
        ensures
            1 <= r.variable_id <= cnf_formula.variable_count,
            cnf_formula.assignments@[r.variable_id - 1] is None,
            r.reason == AssignmentReason::Branching,
    ;
}

/// Picks the first unassigned literal of the first open clause of least width, made true.
pub struct TrivialChooseNextVariable;

impl ChooseNextVariable for TrivialChooseNextVariable {
    fn chose(cnf_formula: &CnfFormula) -> (r: SingleAssignment)
        ensures
            shortest_clause_choice(cnf_formula, r.variable_id as int, r.value.holds()),
    {
        let (v, value) = chose_from_shortest_clause(cnf_formula);
        let value = if value {
            AssignmentValue::True
        } else {
            AssignmentValue::False
        };
        SingleAssignment::new(v as usize, value, AssignmentReason::Branching)
    }
}

} // verus!
