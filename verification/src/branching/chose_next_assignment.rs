use crate::assignment::assignments::Assignments;
use crate::assignment::single_assignment::SingleAssignment;
use crate::cnf::cnf_formula::CnfFormula;
use crate::dpll::chose_next_variable::has_open_choice;
use vstd::prelude::*;

verus! {

pub type MultiAssignment = Vec<SingleAssignment>;

/// A branching rule that splits the search into several branches, each a list of assignments.
pub trait Branching {
    fn chose_branches(cnf_formula: &CnfFormula) -> (r: Vec<Assignments>)
        requires
            cnf_formula.wf(),
            has_open_choice(cnf_formula),
        ensures
            r@.len() > 0,
    ;
}

} // verus!
