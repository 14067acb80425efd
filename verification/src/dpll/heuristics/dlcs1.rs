use crate::cnf::cnf_formula::CnfFormula;
use crate::cnf::variable::Variable;
use crate::dpll::assignment::Assignment;
use crate::dpll::heuristics::{Heuristic, Stats};
use vstd::prelude::*;

verus! {

/// Dynamic largest combined sum: the unassigned variable with the most occurrences, set to the
/// polarity it occurs in more often (true on a tie).
#[derive(Clone, Debug)]
pub struct DLCS1;

/// How often a variable occurs, in both polarities.
pub open spec fn occurrences(v: Variable) -> int {
    v.positive_occurrences_count + v.negative_occurrences_count
}

impl Heuristic for DLCS1 {
    fn chose_next_assignment(&mut self, cnf_formula: &CnfFormula, decision_level: i32) -> (r: Assignment)
        ensures
            ({
                let vars = cnf_formula.variables.0@;
                let i = r.variable_id - 1;
                &&& cnf_formula.assignments@[i] is None
                &&& forall|j: int|
                    0 <= j < vars.len() && cnf_formula.assignments@[j] is None ==> occurrences(
                        #[trigger] vars[j],
                    ) <= occurrences(vars[i])
                &&& forall|j: int|
                    i < j < vars.len() && cnf_formula.assignments@[j] is None ==> occurrences(
                        #[trigger] vars[j],
                    ) < occurrences(vars[i])
                &&& r.value == (vars[i].positive_occurrences_count
                    >= vars[i].negative_occurrences_count)
            }),
    {
        let n = cnf_formula.variables.len();
        let mut best: Option<usize> = None;
        let mut best_key: u128 = 0;
        let mut i: usize = 0;
        while i < n
            invariant
                cnf_formula.wf(),
                n == cnf_formula.variables.0@.len(),
                i <= n,
                match best {
                    Some(b) => {
                        &&& b < i
                        &&& cnf_formula.assignments@[b as int] is None
                        &&& best_key == occurrences(cnf_formula.variables.0@[b as int])
                        &&& forall|j: int|
                            0 <= j < i && cnf_formula.assignments@[j] is None ==> occurrences(
                                #[trigger] cnf_formula.variables.0@[j],
                            ) <= best_key
                        &&& forall|j: int|
                            b < j < i && cnf_formula.assignments@[j] is None ==> occurrences(
                                #[trigger] cnf_formula.variables.0@[j],
                            ) < best_key
                    },
                    None => forall|j: int| 0 <= j < i ==> cnf_formula.assignments@[j] is Some,
                },
            decreases n - i,
        {
            if cnf_formula.assignments[i].is_none() {
                let v = &cnf_formula.variables.0[i];
                let key = (v.positive_occurrences_count as u128) + (v.negative_occurrences_count as u128);
                let better = match best {
                    Some(_) => key >= best_key,
                    None => true,
                };
                if better {
                    best = Some(i);
                    best_key = key;
                }
            }
            i = i + 1;
        }
        match best {
            Some(b) => {
                let v = &cnf_formula.variables.0[b];
                let value = v.positive_occurrences_count >= v.negative_occurrences_count;
                Assignment::new((b as u32) + 1, value)
            },
            None => {
                proof {
                    let k = choose|k: int| 0 <= k < cnf_formula.assignments@.len() && cnf_formula.assignments@[k] is None;
                    assert(cnf_formula.assignments@[k] is Some);
                }
                Assignment::new(1, true)
            },
        }
    }

    fn is_learning(&self) -> (r: bool)
        ensures
            !r,
    {
        false
    }

    fn feedback(&mut self, feedback: Stats) {
    }
}

} // verus!
