use crate::cnf::cnf_formula::CnfFormula;
use crate::dpll::assignment::Assignment;
use crate::dpll::chose_next_variable::has_open_choice;
use vstd::prelude::*;

verus! {

/// A branching rule that looks at the formula alone.
pub trait Heuristic {
    fn chose_next_assignment(cnf_formula: &CnfFormula) -> (r: Assignment)
        requires
            cnf_formula.wf(),
            has_open_choice(cnf_formula),
        ensures
            1 <= r.variable_id <= cnf_formula.variable_count,
    ;
}

} // verus!
