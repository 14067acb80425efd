use crate::cnf::cnf_formula::CnfFormula;
use crate::dpll::assignment::Assignment;
use crate::dpll::chose_next_variable::{has_open_choice, is_open, last_max, width};
use crate::dpll::heuristics::dlcs::{neg_open, open_counts, pos_open};
use crate::dpll::heuristics::heuristic::Heuristic;
use crate::cnf::literals::{lit_unassigned, var_of};
use vstd::prelude::*;

verus! {

/// Dynamic largest individual sum: the unassigned variable with the most occurrences of one
/// of its literals in the clauses not yet satisfied (the last one among equals), set to the
/// polarity it occurs in more often in the whole formula (true on a tie).
pub struct DLIS;

/// The larger of the open occurrence counts of the two literals of the variable at index `i`.
pub open spec fn dlis_key(f: &CnfFormula, i: int) -> int {
    if pos_open(f, i) >= neg_open(f, i) {
        pos_open(f, i)
    } else {
        neg_open(f, i)
    }
}

/// An open clause with an unassigned literal names an unassigned variable.
pub proof fn lemma_open_choice_has_free_variable(f: &CnfFormula)
    requires
        f.wf(),
        has_open_choice(f),
    ensures
        exists|i: int| 0 <= i < f.variable_count && f.assignments@[i] is None,
{
    let c = choose|c: int| 0 <= c < f.clauses@.len() && is_open(f, c);
    assert(width(f, c) > 0);
    let lits = f.clauses@[c].literals@;
    if forall|k: int| 0 <= k < lits.len() ==> !lit_unassigned(f.assignments@, #[trigger] lits[k]) {
        crate::dpll::chose_next_variable::lemma_unassigned_count_zero(f.assignments@, lits);
    } else {
        let k = choose|k: int| 0 <= k < lits.len() && lit_unassigned(f.assignments@, lits[k]);
        assert(crate::cnf::clause::clause_wf(f.clauses@[c], f.variable_count as int));
        assert(f.assignments@[var_of(lits[k]) - 1] is None);
    }
}

impl Heuristic for DLIS {
    fn chose_next_assignment(cnf_formula: &CnfFormula) -> (r: Assignment)
        ensures
            ({
                let i = r.variable_id - 1;
                let v = cnf_formula.variables.0@[i];
                &&& cnf_formula.assignments@[i] is None
                &&& forall|j: int|
                    0 <= j < cnf_formula.variable_count && cnf_formula.assignments@[j] is None ==> #[trigger] dlis_key(
                        cnf_formula,
                        j,
                    ) <= dlis_key(cnf_formula, i)
                &&& forall|j: int|
                    i < j < cnf_formula.variable_count && cnf_formula.assignments@[j] is None ==> #[trigger] dlis_key(
                        cnf_formula,
                        j,
                    ) < dlis_key(cnf_formula, i)
                &&& r.value == (v.positive_occurrences_count >= v.negative_occurrences_count)
            }),
    {
        proof {
            lemma_open_choice_has_free_variable(cnf_formula);
        }
        let (pos, neg, free) = open_counts(cnf_formula);
        let n = cnf_formula.variable_count;
        let mut keys: Vec<u128> = Vec::new();
        let mut i: usize = 0;
        while i < n
            invariant
                n == cnf_formula.variable_count,
                pos@.len() == n,
                neg@.len() == n,
                i <= n,
                keys@.len() == i,
                forall|k: int| 0 <= k < i ==> #[trigger] keys@[k] == if pos@[k] >= neg@[k] {
                    pos@[k]
                } else {
                    neg@[k]
                },
            decreases n - i,
        {
            let k = if pos[i] >= neg[i] {
                pos[i]
            } else {
                neg[i]
            };
            keys.push(k as u128);
            i = i + 1;
        }
        proof {
            let k = choose|k: int| 0 <= k < cnf_formula.variable_count && cnf_formula.assignments@[k] is None;
            assert(free@[k]);
        }
        let b = last_max(&keys, &free);
        proof {
            assert(free@[b as int] == (cnf_formula.assignments@[b as int] is None));
            assert forall|j: int|
                0 <= j < cnf_formula.variable_count && cnf_formula.assignments@[j] is None implies #[trigger] dlis_key(
                cnf_formula,
                j,
            ) <= dlis_key(cnf_formula, b as int) by {
                assert(free@[j] == (cnf_formula.assignments@[j] is None));
            }
            assert forall|j: int|
                b < j < cnf_formula.variable_count && cnf_formula.assignments@[j] is None implies #[trigger] dlis_key(
                cnf_formula,
                j,
            ) < dlis_key(cnf_formula, b as int) by {
                assert(free@[j] == (cnf_formula.assignments@[j] is None));
            }
        }
        let v = &cnf_formula.variables.0[b];
        let value = v.positive_occurrences_count >= v.negative_occurrences_count;
        Assignment::new((b + 1) as u32, value)
    }
}

} // verus!
