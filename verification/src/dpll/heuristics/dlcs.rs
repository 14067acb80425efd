use crate::cnf::cnf_formula::CnfFormula;
use crate::dpll::assignment::Assignment;
use crate::dpll::chose_next_variable::{capped, last_max, open_occurrence_count, open_occurrences};
use crate::dpll::heuristics::{Heuristic, Stats};
use vstd::prelude::*;

verus! {

/// Dynamic largest combined sum: the unassigned variable that occurs most often in the
/// clauses not yet satisfied (the last one among equals), set to the polarity that occurs
/// there more often (true on a tie).
#[derive(Debug)]
pub struct DLCS;

/// How often the positive literal of the variable at index `i` (variable `i + 1`) occurs in
/// the open clauses.
pub open spec fn pos_open(f: &CnfFormula, i: int) -> int {
    capped(open_occurrences(f, (i + 1) as i32, f.clauses@.len() as int)) as int
}

/// How often the negative literal of the variable at index `i` occurs in the open clauses.
pub open spec fn neg_open(f: &CnfFormula, i: int) -> int {
    capped(open_occurrences(f, (-(i + 1)) as i32, f.clauses@.len() as int)) as int
}

/// The key of the variable at index `i`: its open occurrences in both polarities.
pub open spec fn dlcs_key(f: &CnfFormula, i: int) -> int {
    pos_open(f, i) + neg_open(f, i)
}

/// The open occurrences of each unassigned variable, positive and negative, indexed by
/// variable ID minus one; zeros for the assigned ones.
pub(crate) fn open_counts(f: &CnfFormula) -> (r: (Vec<usize>, Vec<usize>, Vec<bool>))
    requires
        f.wf(),
    ensures
        r.0@.len() == f.variable_count,
        r.1@.len() == f.variable_count,
        r.2@.len() == f.variable_count,
        forall|i: int| 0 <= i < f.variable_count ==> (#[trigger] r.2@[i]) == (f.assignments@[i] is None),
        forall|i: int|
            0 <= i < f.variable_count && f.assignments@[i] is None ==> #[trigger] r.0@[i] == pos_open(f, i)
                && r.1@[i] == neg_open(f, i),
{
    let n = f.variable_count;
    let mut pos: Vec<usize> = Vec::new();
    let mut neg: Vec<usize> = Vec::new();
    let mut free: Vec<bool> = Vec::new();
    let mut i: usize = 0;
    while i < n
        invariant
            f.wf(),
            n == f.variable_count,
            i <= n,
            pos@.len() == i,
            neg@.len() == i,
            free@.len() == i,
            forall|k: int| 0 <= k < i ==> (#[trigger] free@[k]) == (f.assignments@[k] is None),
            forall|k: int|
                0 <= k < i && f.assignments@[k] is None ==> #[trigger] pos@[k] == pos_open(f, k)
                    && neg@[k] == neg_open(f, k),
        decreases n - i,
    {
        if f.assignments[i].is_none() {
            let v = (i + 1) as i32;
            let p = open_occurrence_count(f, v);
            let q = open_occurrence_count(f, -v);
            assert(p == pos_open(f, i as int));
            assert(q == neg_open(f, i as int));
            pos.push(p);
            neg.push(q);
            free.push(true);
        } else {
            pos.push(0);
            neg.push(0);
            free.push(false);
        }
        i = i + 1;
    }
    (pos, neg, free)
}

impl Heuristic for DLCS {
    fn chose_next_assignment(&mut self, cnf_formula: &CnfFormula, decision_level: i32) -> (r: Assignment)
        ensures
            ({
                let i = r.variable_id - 1;
                &&& forall|j: int|
                    0 <= j < cnf_formula.variable_count && cnf_formula.assignments@[j] is None ==> #[trigger] dlcs_key(
                        cnf_formula,
                        j,
                    ) <= dlcs_key(cnf_formula, i)
                &&& forall|j: int|
                    i < j < cnf_formula.variable_count && cnf_formula.assignments@[j] is None ==> #[trigger] dlcs_key(
                        cnf_formula,
                        j,
                    ) < dlcs_key(cnf_formula, i)
                &&& r.value == (pos_open(cnf_formula, i) >= neg_open(cnf_formula, i))
            }),
    {
        let (pos, neg, free) = open_counts(cnf_formula);
        let n = cnf_formula.variable_count;
        let mut keys: Vec<u128> = Vec::new();
        let mut i: usize = 0;
        while i < n
            invariant
                n == cnf_formula.variable_count,
                pos@.len() == n,
                neg@.len() == n,
                i <= n,
                keys@.len() == i,
                forall|k: int| 0 <= k < i ==> #[trigger] keys@[k] == pos@[k] + neg@[k],
            decreases n - i,
        {
            keys.push((pos[i] as u128) + (neg[i] as u128));
            i = i + 1;
        }
        proof {
            let k = choose|k: int| 0 <= k < cnf_formula.assignments@.len() && cnf_formula.assignments@[k] is None;
            assert(free@[k]);
        }
        let b = last_max(&keys, &free);
        proof {
            assert forall|j: int| 0 <= j < n && free@[j] implies keys@[j] == dlcs_key(cnf_formula, j) by {
                assert(free@[j] == (cnf_formula.assignments@[j] is None));
            }
            assert(free@[b as int] == (cnf_formula.assignments@[b as int] is None));
            assert forall|j: int|
                0 <= j < cnf_formula.variable_count && cnf_formula.assignments@[j] is None implies #[trigger] dlcs_key(
                cnf_formula,
                j,
            ) <= dlcs_key(cnf_formula, b as int) by {
                assert(free@[j] == (cnf_formula.assignments@[j] is None));
            }
            assert forall|j: int|
                b < j < cnf_formula.variable_count && cnf_formula.assignments@[j] is None implies #[trigger] dlcs_key(
                cnf_formula,
                j,
            ) < dlcs_key(cnf_formula, b as int) by {
                assert(free@[j] == (cnf_formula.assignments@[j] is None));
            }
        }
        Assignment::new((b + 1) as u32, pos[b] >= neg[b])
    }

    fn is_learning(&self) -> (r: bool)
        ensures
            !r,
    {
        false
    }

    fn feedback(&mut self, feedback: Stats) {
    }
}

} // verus!
