use crate::assignment::assignments::Assignments;
use crate::assignment::single_assignment::{AssignmentReason, AssignmentValue, SingleAssignment};
use crate::branching::chose_next_assignment::Branching;
use crate::cnf::clause::clause_wf;
use crate::cnf::cnf_formula::CnfFormula;
use crate::cnf::literals::{lit_unassigned, lit_var, var_of};
use crate::dpll::chose_next_variable::{has_open_choice, is_shortest_open, shortest_open_clause};
use vstd::prelude::*;

verus! {

/// The test that keeps the unassigned literals under `a`.
pub open spec fn unassigned_in(a: Seq<Option<bool>>) -> spec_fn(i32) -> bool {
    |l: i32| lit_unassigned(a, l)
}

/// The assignment that gives the variable of `l` the value `value`, for branching.
pub open spec fn lit_assignment(l: i32, value: bool) -> SingleAssignment {
    SingleAssignment {
        variable_id: var_of(l) as usize,
        value: if value {
            AssignmentValue::True
        } else {
            AssignmentValue::False
        },
        reason: AssignmentReason::Branching,
    }
}

/// The assignments that make each literal of `u` false.
pub open spec fn negations(u: Seq<i32>) -> Seq<SingleAssignment> {
    u.map_values(|l: i32| lit_assignment(l, !(l > 0)))
}

/// The branches of the Monien-Speckenmeyer rule for the literals `u`: branch `i` makes the
/// literals before `u[i]` false and `u[i]` true; the last branch makes them all false.
pub open spec fn ms_branches(u: Seq<i32>) -> Seq<Seq<SingleAssignment>> {
    Seq::new(
        u.len() + 1,
        |i: int|
            if i < u.len() {
                negations(u.take(i)).push(lit_assignment(u[i], u[i] > 0))
            } else {
                negations(u)
            },
    )
}

/// The Monien-Speckenmeyer branching rule on the first open clause of least width.
pub struct MonienSpeckenmeyer;

/// A copy of a list of assignments.
fn copy_assignments(v: &Vec<SingleAssignment>) -> (r: Vec<SingleAssignment>)
    ensures
        r@ == v@,
{
    let mut r: Vec<SingleAssignment> = Vec::new();
    let mut i: usize = 0;
    while i < v.len()
        invariant
            i <= v@.len(),
            r@ == v@.take(i as int),
        decreases v@.len() - i,
    {
        r.push(v[i]);
        assert(r@ =~= v@.take(i + 1));
        i = i + 1;
    }
    assert(v@.take(v@.len() as int) =~= v@);
    r
}

/// The assignment of the variable of `l` to `value`, for branching.
fn make_assignment(l: i32, value: bool) -> (r: SingleAssignment)
    requires
        l != i32::MIN,
    ensures
        r == lit_assignment(l, value),
{
    let v = if value {
        AssignmentValue::True
    } else {
        AssignmentValue::False
    };
    SingleAssignment::new(lit_var(l) as usize, v, AssignmentReason::Branching)
}

impl MonienSpeckenmeyer {
    /// The branches, as lists of assignments, for the first open clause of least width.
    pub open spec fn branch_lists(r: Seq<Assignments>) -> Seq<Seq<SingleAssignment>> {
        r.map_values(|b: Assignments| b.0@)
    }
}

impl Branching for MonienSpeckenmeyer {
    fn chose_branches(cnf_formula: &CnfFormula) -> (r: Vec<Assignments>)
        ensures
            exists|c: int|
                is_shortest_open(cnf_formula, c) && Self::branch_lists(r@) == ms_branches(
                    #[trigger] cnf_formula.clauses@[c].literals@.filter(unassigned_in(cnf_formula.assignments@)),
                ),
    {
        let c = shortest_open_clause(cnf_formula);
        let lits = &cnf_formula.clauses[c].literals;
        let ghost a = cnf_formula.assignments@;
        let ghost p = unassigned_in(a);
        assert(clause_wf(cnf_formula.clauses@[c as int], cnf_formula.variable_count as int));
        let n = lits.len();
        let mut branches: Vec<Assignments> = Vec::new();
        let mut unsat_assignments = Assignments::new();
        let mut i: usize = 0;
        while i < n
            invariant
                cnf_formula.wf(),
                c < cnf_formula.clauses@.len(),
                *lits == cnf_formula.clauses@[c as int].literals,
                a == cnf_formula.assignments@,
                p == unassigned_in(a),
                clause_wf(cnf_formula.clauses@[c as int], cnf_formula.variable_count as int),
                n == lits@.len(),
                i <= n,
                unsat_assignments.0@ == negations(lits@.take(i as int).filter(p)),
                Self::branch_lists(branches@) == ms_branches(lits@.take(i as int).filter(p)).take(
                    lits@.take(i as int).filter(p).len() as int,
                ),
            decreases n - i,
        {
            let l = lits.get(i);
            let ghost u0 = lits@.take(i as int).filter(p);
            proof {
                assert(lits@.take(i + 1) =~= lits@.take(i as int).push(l));
                lits@.take(i as int).lemma_filter_push(l, p);
            }
            if cnf_formula.assignments[(lit_var(l) - 1) as usize].is_none() {
                let ghost u1 = u0.push(l);
                assert(lits@.take(i + 1).filter(p) == u1);
                let sat_assignment = make_assignment(l, l > 0);
                let mut branch = Assignments(copy_assignments(&unsat_assignments.0));
                branch.push(sat_assignment);
                let ghost b0 = branches@;
                assert(Self::branch_lists(b0).len() == b0.len());
                assert(b0.len() == u0.len());
                branches.push(branch);
                let unsat_assignment = make_assignment(l, !(l > 0));
                unsat_assignments.push(unsat_assignment);
                proof {
                    assert(unsat_assignments.0@ =~= negations(u1)) by {
                        assert(negations(u1) =~= negations(u0).push(lit_assignment(l, !(l > 0))));
                    }
                    assert(u1.take(u0.len() as int) =~= u0);
                    assert(Self::branch_lists(branches@) =~= ms_branches(u1).take(u1.len() as int)) by {
                        assert forall|k: int| 0 <= k < u1.len() implies Self::branch_lists(branches@)[k]
                            == ms_branches(u1).take(u1.len() as int)[k] by {
                            if k < u0.len() {
                                assert(branches@[k] == b0[k]);
                                assert(Self::branch_lists(b0)[k] == ms_branches(u0)[k]);
                                assert(u1.take(k) =~= u0.take(k));
                                assert(u1[k] == u0[k]);
                            } else {
                                assert(u1.take(k) =~= u0);
                                assert(u1[k] == l);
                            }
                        }
                    }
                }
            } else {
                proof {
                    assert(lits@.take(i + 1).filter(p) == u0);
                }
            }
            i = i + 1;
        }
        let ghost u = lits@.take(n as int).filter(p);
        assert(lits@.take(n as int) =~= lits@);
        let ghost b0 = branches@;
        assert(Self::branch_lists(b0).len() == b0.len());
        branches.push(unsat_assignments);
        proof {
            assert(Self::branch_lists(branches@) =~= ms_branches(u)) by {
                assert forall|k: int| 0 <= k < u.len() + 1 implies Self::branch_lists(branches@)[k]
                    == ms_branches(u)[k] by {
                    if k < u.len() {
                        assert(branches@[k] == b0[k]);
                        assert(Self::branch_lists(b0)[k] == ms_branches(u).take(u.len() as int)[k]);
                    }
                }
            }
        }
        branches
    }
}

} // verus!
