use crate::cnf::cnf_formula::CnfFormula;
use crate::dpll::assignment::Assignment;
use crate::dpll::chose_next_variable::{chose_from_shortest_clause, has_open_choice, shortest_clause_choice};
use crate::dpll::heuristics::{Heuristic, Stats};
use vstd::prelude::*;

verus! {

/// The shortest-clause rule: the first unassigned literal of the first open clause of least
/// width, made true. Where no open clause has an unassigned literal, the first unassigned
/// variable, set to true.
#[derive(Debug)]
pub struct FromShortestClause;

/// Whether some open clause has no unassigned literal, or no clause is open.
fn open_choice_exists(f: &CnfFormula) -> (r: bool)
    requires
        f.wf(),
    ensures
        r == has_open_choice(f),
{
    let n = f.clauses.len();
    let mut any = false;
    let mut i: usize = 0;
    while i < n
        invariant
            f.wf(),
            n == f.clauses@.len(),
            i <= n,
            any == exists|c: int| 0 <= c < i && crate::dpll::chose_next_variable::is_open(f, c),
            forall|c: int|
                0 <= c < i && crate::dpll::chose_next_variable::is_open(f, c)
                    ==> #[trigger] crate::dpll::chose_next_variable::width(f, c) > 0,
        decreases n - i,
    {
        let (sat, w) = crate::dpll::chose_next_variable::clause_status_of(f, i);
        if !sat {
            if w == 0 {
                return false;
            }
            any = true;
        }
        i = i + 1;
    }
    any
}

impl Heuristic for FromShortestClause {
    fn chose_next_assignment(&mut self, cnf_formula: &CnfFormula, decision_level: i32) -> (r: Assignment)
        ensures
            has_open_choice(cnf_formula) ==> shortest_clause_choice(
                cnf_formula,
                r.variable_id as int,
                r.value,
            ),
            !has_open_choice(cnf_formula) ==> r.value && cnf_formula.assignments@[r.variable_id - 1] is None
                && forall|i: int| 0 <= i < r.variable_id - 1 ==> cnf_formula.assignments@[i] is Some,
    {
        if open_choice_exists(cnf_formula) {
            let (v, value) = chose_from_shortest_clause(cnf_formula);
            Assignment::new(v, value)
        } else {
            let v = cnf_formula.variables.find_unassigned(cnf_formula.assignments.as_slice());
            Assignment::new(v, true)
        }
    }

    fn is_learning(&self) -> (r: bool)
        ensures
            !r,
    {
        false
    }

    fn feedback(&mut self, feedback: Stats) {
    }
}

} // verus!
