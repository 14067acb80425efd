use crate::cnf::cnf_formula::CnfFormula;
use crate::dpll::assignment::Assignment;
use crate::dpll::chose_next_variable::{
    capped, is_shortest_open, last_max, narrow_occurrence_count, narrow_occurrences, shortest_open_clause,
    width,
};
use crate::dpll::heuristics::heuristic::Heuristic;
use vstd::prelude::*;

verus! {

/// Maximum occurrences in clauses of minimum size: among the open clauses of least width, the
/// variable whose unassigned literals occur there most often, weighing both polarities
/// (the last one among equals, over all variables), set to true.
pub struct MOM;

/// How often a literal of the variable at index `i` occurs in the open clauses of width `w`,
/// positive or negative as `positive` says, if the variable is unassigned; 0 if it is assigned.
pub open spec fn narrow_count(f: &CnfFormula, i: int, positive: bool, w: nat) -> int {
    if f.assignments@[i] is None {
        capped(
            narrow_occurrences(
                f,
                if positive {
                    (i + 1) as i32
                } else {
                    (-(i + 1)) as i32
                },
                w,
                f.clauses@.len() as int,
            ),
        ) as int
    } else {
        0
    }
}

/// The weight of the variable at index `i`: both counts together times 32, plus their product
/// (at most the largest `u128`).
pub open spec fn mom_key(f: &CnfFormula, i: int, w: nat) -> int {
    let k = (narrow_count(f, i, true, w) + narrow_count(f, i, false, w)) * 32 + narrow_count(f, i, true, w)
        * narrow_count(f, i, false, w);
    if k > u128::MAX {
        u128::MAX as int
    } else {
        k
    }
}

impl Heuristic for MOM {
    fn chose_next_assignment(cnf_formula: &CnfFormula) -> (r: Assignment)
        ensures
            r.value,
            exists|c: int|
                #![trigger is_shortest_open(cnf_formula, c)]
                is_shortest_open(cnf_formula, c) && {
                    let w = width(cnf_formula, c);
                    let i = r.variable_id - 1;
                    &&& forall|j: int|
                        0 <= j < cnf_formula.variable_count ==> #[trigger] mom_key(cnf_formula, j, w) <= mom_key(
                            cnf_formula,
                            i,
                            w,
                        )
                    &&& forall|j: int|
                        i < j < cnf_formula.variable_count ==> #[trigger] mom_key(cnf_formula, j, w) < mom_key(
                            cnf_formula,
                            i,
                            w,
                        )
                },
    {
        let c = shortest_open_clause(cnf_formula);
        let (_, min_width) = crate::dpll::chose_next_variable::clause_status_of(cnf_formula, c);
        proof {
            crate::dpll::heuristics::dlis::lemma_open_choice_has_free_variable(cnf_formula);
        }
        let n = cnf_formula.variable_count;
        let mut keys: Vec<u128> = Vec::new();
        let mut all: Vec<bool> = Vec::new();
        let mut i: usize = 0;
        while i < n
            invariant
                cnf_formula.wf(),
                n == cnf_formula.variable_count,
                min_width == width(cnf_formula, c as int),
                i <= n,
                keys@.len() == i,
                all@.len() == i,
                forall|k: int| 0 <= k < i ==> #[trigger] all@[k],
                forall|k: int| 0 <= k < i ==> #[trigger] keys@[k] == mom_key(cnf_formula, k, min_width as nat),
            decreases n - i,
        {
            let v = (i + 1) as i32;
            let (h_pos, h_neg) = if cnf_formula.assignments[i].is_none() {
                (
                    narrow_occurrence_count(cnf_formula, v, min_width),
                    narrow_occurrence_count(cnf_formula, -v, min_width),
                )
            } else {
                (0, 0)
            };
            assert(h_pos == narrow_count(cnf_formula, i as int, true, min_width as nat));
            assert(h_neg == narrow_count(cnf_formula, i as int, false, min_width as nat));
            let total: u128 = (h_pos as u128) + (h_neg as u128);
            assert(usize::MAX <= 0xffff_ffff_ffff_ffff);
            assert((h_pos as int) * (h_neg as int) <= 0xffff_ffff_ffff_ffff * 0xffff_ffff_ffff_ffff)
                by (nonlinear_arith)
                requires
                    0 <= h_pos <= 0xffff_ffff_ffff_ffff,
                    0 <= h_neg <= 0xffff_ffff_ffff_ffff,
            ;
            assert(0 <= (h_pos as int) * (h_neg as int)) by (nonlinear_arith)
                requires
                    0 <= h_pos,
                    0 <= h_neg,
            ;
            let t: u128 = total * 32;
            let p: u128 = (h_pos as u128) * (h_neg as u128);
            let key = t.saturating_add(p);
            assert(key == mom_key(cnf_formula, i as int, min_width as nat));
            keys.push(key);
            all.push(true);
            i = i + 1;
        }
        assert(all@[0]);
        let b = last_max(&keys, &all);
        proof {
            assert(is_shortest_open(cnf_formula, c as int));
            let w = width(cnf_formula, c as int);
            assert(w == min_width as nat);
            assert forall|j: int| 0 <= j < cnf_formula.variable_count implies #[trigger] mom_key(cnf_formula, j, w)
                <= mom_key(cnf_formula, b as int, w) by {
                assert(all@[j]);
                assert(keys@[j] == mom_key(cnf_formula, j, w));
            }
            assert forall|j: int| b < j < cnf_formula.variable_count implies #[trigger] mom_key(cnf_formula, j, w)
                < mom_key(cnf_formula, b as int, w) by {
                assert(all@[j]);
                assert(keys@[j] == mom_key(cnf_formula, j, w));
            }
        }
        Assignment::new((b + 1) as u32, true)
    }
}

} // verus!
