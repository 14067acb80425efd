use crate::cnf::cnf_formula::CnfFormula;
use crate::cnf::literals::clause_satisfied;
use crate::dpll::chose_next_variable::clause_status_of;
use vstd::prelude::*;

verus! {

/// Whether the assignment of the formula satisfies every clause.
pub fn verify_satisfied(cnf_formula: &CnfFormula) -> (r: bool)
    requires
        cnf_formula.wf(),
    ensures
        r == forall|c: int|
            0 <= c < cnf_formula.clauses@.len() ==> clause_satisfied(
                cnf_formula.assignments@,
                #[trigger] cnf_formula.clauses@[c].literals@,
            ),
{
    let n = cnf_formula.clauses.len();
    let mut i: usize = 0;
    while i < n
        invariant
            cnf_formula.wf(),
            n == cnf_formula.clauses@.len(),
            i <= n,
            forall|c: int|
                0 <= c < i ==> clause_satisfied(
                    cnf_formula.assignments@,
                    #[trigger] cnf_formula.clauses@[c].literals@,
                ),
        decreases n - i,
    {
        let (sat, _) = clause_status_of(cnf_formula, i);
        if !sat {
            return false;
        }
        i = i + 1;
    }
    true
}

} // verus!
