use crate::cdcl::assignment::Assignment;
use crate::cdcl::heuristics::Heuristic;
use crate::cnf::cnf_formula::{lemma_watched_in_range, CnfFormula};
use crate::cnf::literals::{lit_true, lit_var, var_of};
use vstd::prelude::*;

verus! {

/// Picks the first watched literal of the first clause that no watched literal satisfies,
/// or else the first unassigned variable, set to true.
#[derive(Debug)]
pub struct Trivial;

impl Heuristic for Trivial {
    fn chose_next_assignment(&mut self, cnf_formula: &CnfFormula) -> (r: Assignment)
        ensures
            match first_unsatisfied_by_watched(cnf_formula) {
                Some(c) => r.variable_id == var_of(cnf_formula.clauses@[c].watched1) && r.value == (
                cnf_formula.clauses@[c].watched1 > 0),
                None => r.value && cnf_formula.assignments@[r.variable_id - 1] is None && forall|
                    i: int,
                | 0 <= i < r.variable_id - 1 ==> cnf_formula.assignments@[i] is Some,
            },
    {
        let n = cnf_formula.clauses.len();
        let mut c: usize = 0;
        while c < n
            invariant
                cnf_formula.wf(),
                n == cnf_formula.clauses@.len(),
                c <= n,
                forall|k: int| 0 <= k < c ==> satisfied_by_watched(cnf_formula, k),
            decreases n - c,
        {
            proof {
                lemma_watched_in_range(cnf_formula, c as int);
            }
            if !cnf_formula.clauses[c].is_satisfied_by_watched(cnf_formula.assignments.as_slice()) {
                proof {
                    assert(!satisfied_by_watched(cnf_formula, c as int));
                    assert(first_unsatisfied_by_watched(cnf_formula) == Some(c as int)) by {
                        let j = choose|j: int|
                            0 <= j < cnf_formula.clauses@.len() && !satisfied_by_watched(cnf_formula, j)
                                && forall|k: int| 0 <= k < j ==> satisfied_by_watched(cnf_formula, k);
                        if j < c {
                            assert(satisfied_by_watched(cnf_formula, j));
                        } else if j > c {
                            assert(satisfied_by_watched(cnf_formula, c as int));
                        }
                    }
                }
                let w1 = cnf_formula.clauses[c].watched1;
                return Assignment::new(lit_var(w1), w1 > 0, None);
            }
            c = c + 1;
        }
        proof {
            if exists|j: int| 0 <= j < cnf_formula.clauses@.len() && !satisfied_by_watched(cnf_formula, j) {
                let j = choose|j: int| 0 <= j < cnf_formula.clauses@.len() && !satisfied_by_watched(cnf_formula, j);
                assert(satisfied_by_watched(cnf_formula, j));
            }
        }
        let v = cnf_formula.variables.find_unassigned(cnf_formula.assignments.as_slice());
        Assignment::new(v, true, None)
    }
}

/// One of the watched literals of clause `c` is true.
pub open spec fn satisfied_by_watched(f: &CnfFormula, c: int) -> bool {
    lit_true(f.assignments@, f.clauses@[c].watched1) || lit_true(f.assignments@, f.clauses@[c].watched2)
}

/// The first clause that no watched literal satisfies.
pub open spec fn first_unsatisfied_by_watched(f: &CnfFormula) -> Option<int> {
    if exists|j: int| 0 <= j < f.clauses@.len() && !satisfied_by_watched(f, j) {
        Some(
            choose|j: int|
                0 <= j < f.clauses@.len() && !satisfied_by_watched(f, j) && forall|k: int|
                    0 <= k < j ==> satisfied_by_watched(f, k),
        )
    } else {
        None
    }
}

} // verus!
