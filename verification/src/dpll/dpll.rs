use crate::cnf::clause::ClauseID;
use crate::cnf::clause::clause_wf;
use crate::cnf::cnf_formula::{is_unit_clause, same_literals, all_watches_alive, lemma_count_unset_bounds, watch_alive, watches_sound, CnfFormula};
use crate::cnf::literals::{clause_falsified, clause_satisfied, clause_unit_on, lit_false, lit_true, var_of};
use crate::dpll::assignment::{Assignment, AssignmentResult};
use crate::dpll::assignment_stack::{kept_on_undo, unassigned_by, AssignmentStack};
use crate::dpll::heuristics::{Heuristic, Stats};
use crate::dpll::refutation::{
    decisions_imply, lemma_conflict_without_decisions, lemma_decision_implied, lemma_empty_trail_implies,
    lemma_flip_implied, trail_matches,
};
use crate::cdcl::cdcl::{clause_lits, holds, is_model, rest_false, satisfied_by};
use std::collections::VecDeque;
use vstd::prelude::*;
use vstd::set_lib::{lemma_int_range, lemma_len_subset, set_int_range};

verus! {

#[derive(Debug, PartialEq, Eq, Clone, Copy, Structural)]
pub enum DpllStatus {
    Sat,
    Unsat,
    Incomplete,
    Conflict,
}

/// Every assignment on the trail names a variable of the formula, which holds that value, and
/// no variable occurs twice on the trail.
pub open spec fn trail_ok(t: Seq<Assignment>, f: CnfFormula) -> bool {
    &&& forall|k: int|
        0 <= k < t.len() ==> 1 <= (#[trigger] t[k]).variable_id <= f.variable_count
            && f.assignments@[t[k].variable_id - 1] == Some(t[k].value)
    &&& forall|j: int, k: int|
        0 <= j < k < t.len() ==> (#[trigger] t[j]).variable_id != (#[trigger] t[k]).variable_id
}

/// A trail of distinct variables of a formula is no longer than the formula has variables.
pub proof fn lemma_trail_len(t: Seq<Assignment>, f: CnfFormula)
    requires
        trail_ok(t, f),
    ensures
        t.len() <= f.variable_count,
{
    let ids = t.map_values(|a: Assignment| a.variable_id as int);
    assert(ids.no_duplicates()) by {
        assert forall|i: int, j: int| 0 <= i < ids.len() && 0 <= j < ids.len() && i != j implies ids[i]
            != ids[j] by {
            if i < j {
                assert(t[i].variable_id != t[j].variable_id);
            } else {
                assert(t[j].variable_id != t[i].variable_id);
            }
        }
    }
    ids.unique_seq_to_set();
    lemma_int_range(1, f.variable_count + 1);
    assert(ids.to_set().subset_of(set_int_range(1, f.variable_count + 1))) by {
        assert forall|x: int| ids.to_set().contains(x) implies set_int_range(1, f.variable_count + 1).contains(x) by {
            let k = choose|k: int| 0 <= k < ids.len() && ids[k] == x;
            assert(1 <= t[k].variable_id <= f.variable_count);
        }
    }
    lemma_len_subset(ids.to_set(), set_int_range(1, f.variable_count + 1));
}

/// With nothing assigned no literal is false.
pub proof fn lemma_nothing_false_alive(a: Seq<Option<bool>>, clauses: Seq<crate::cnf::clause::Clause>)
    requires
        forall|i: int| 0 <= i < a.len() ==> a[i] is None,
        forall|c: int| 0 <= c < clauses.len() ==> clause_wf(#[trigger] clauses[c], a.len() as int),
    ensures
        all_watches_alive(a, clauses),
{
    assert forall|c: int| 0 <= c < clauses.len() implies watch_alive(a, #[trigger] clauses[c]) by {
        let cl = clauses[c];
        assert(clause_wf(cl, a.len() as int));
        let k1 = choose|k: int| 0 <= k < cl.literals@.len() && cl.literals@[k] == cl.watched1;
        assert(1 <= var_of(cl.literals@[k1]) <= a.len());
    }
}

/// Unassigning variables keeps a watched literal of every clause from being false.
pub proof fn lemma_alive_fewer(a: Seq<Option<bool>>, b: Seq<Option<bool>>, clauses: Seq<crate::cnf::clause::Clause>)
    requires
        all_watches_alive(a, clauses),
        a.len() == b.len(),
        forall|i: int| 0 <= i < b.len() && b[i] is Some ==> b[i] == a[i],
        forall|c: int| 0 <= c < clauses.len() ==> clause_wf(#[trigger] clauses[c], a.len() as int),
    ensures
        all_watches_alive(b, clauses),
{
    assert forall|c: int| 0 <= c < clauses.len() implies watch_alive(b, #[trigger] clauses[c]) by {
        let cl = clauses[c];
        assert(clause_wf(cl, a.len() as int));
        assert(watch_alive(a, cl));
        let k1 = choose|k: int| 0 <= k < cl.literals@.len() && cl.literals@[k] == cl.watched1;
        let k2 = choose|k: int| 0 <= k < cl.literals@.len() && cl.literals@[k] == cl.watched2;
        assert(1 <= var_of(cl.literals@[k1]) <= a.len());
        assert(1 <= var_of(cl.literals@[k2]) <= a.len());
    }
}

/// With every variable assigned, a clause with a watched literal that is not false is
/// satisfied.
pub proof fn lemma_alive_all_assigned_satisfied(a: Seq<Option<bool>>, clauses: Seq<crate::cnf::clause::Clause>)
    requires
        all_watches_alive(a, clauses),
        forall|i: int| 0 <= i < a.len() ==> a[i] is Some,
        forall|c: int| 0 <= c < clauses.len() ==> clause_wf(#[trigger] clauses[c], a.len() as int),
    ensures
        forall|c: int| 0 <= c < clauses.len() ==> clause_satisfied(a, #[trigger] clauses[c].literals@),
{
    assert forall|c: int| 0 <= c < clauses.len() implies clause_satisfied(a, #[trigger] clauses[c].literals@) by {
        let cl = clauses[c];
        assert(clause_wf(cl, a.len() as int));
        assert(watch_alive(a, cl));
        let k1 = choose|k: int| 0 <= k < cl.literals@.len() && cl.literals@[k] == cl.watched1;
        let k2 = choose|k: int| 0 <= k < cl.literals@.len() && cl.literals@[k] == cl.watched2;
        assert(1 <= var_of(cl.literals@[k1]) <= a.len());
        assert(1 <= var_of(cl.literals@[k2]) <= a.len());
        if !lit_false(a, cl.watched1) {
            assert(lit_true(a, cl.literals@[k1]));
        } else {
            assert(lit_true(a, cl.literals@[k2]));
        }
    }
}

/// A DPLL search with chronological backtracking.
pub struct Dpll {
    pub heuristic: Box<dyn Heuristic>,
    pub unit_queue: VecDeque<ClauseID>,
    pub cnf_formula: CnfFormula,
    pub assignment_stack: AssignmentStack,
    pub status: DpllStatus,
    /// Whether the search started from a formula whose watches are sound (see
    /// `watches_sound`) with every variable unassigned; then a `Sat` answer comes with a model.
    pub sound: Ghost<bool>,
    /// How many branching steps the latest search loop took.
    pub rounds: Ghost<nat>,
}

impl Dpll {
    /// The search state is consistent.
    pub open spec fn wf(&self) -> bool {
        &&& self.cnf_formula.wf()
        &&& trail_ok(self.assignment_stack.trail(), self.cnf_formula)
        &&& forall|k: int|
            0 <= k < self.unit_queue@.len() ==> (#[trigger] self.unit_queue@[k]) < self.cnf_formula.clauses@.len()
        &&& forall|k: int|
            0 <= k < self.assignment_stack.starts().len() ==> -1 <= #[trigger] self.assignment_stack.starts()[k]
                < i32::MAX
        &&& self.status != DpllStatus::Unsat ==> self.assignment_stack.starts().len() > 0
        &&& self.assignment_stack.starts().len() > 0 ==> self.assignment_stack.starts()[0] == -1
        &&& self.status == DpllStatus::Sat ==> forall|i: int|
            0 <= i < self.cnf_formula.assignments@.len() ==> self.cnf_formula.assignments@[i] is Some
        &&& self.sound@ ==> forall|i: int, j: int|
            0 <= i < j < self.assignment_stack.starts().len() ==> self.assignment_stack.starts()[i]
                <= self.assignment_stack.starts()[j]
        &&& self.sound@ ==> forall|k: int|
            0 <= k < self.assignment_stack.starts().len() ==> #[trigger] self.assignment_stack.starts()[k]
                <= self.assignment_stack.trail().len()
        &&& self.sound@ ==> watches_sound(self.cnf_formula)
        &&& self.sound@ && self.status != DpllStatus::Conflict && self.status != DpllStatus::Unsat
            ==> all_watches_alive(self.cnf_formula.assignments@, self.cnf_formula.clauses@)
        &&& self.sound@ && self.status == DpllStatus::Conflict ==> self.level_open() && all_watches_alive(
            self.cnf_formula.assignments@.update(
                self.assignment_stack.trail().last().variable_id - 1,
                None,
            ),
            self.cnf_formula.clauses@,
        )
    }

    /// The trail holds an assignment made at the current decision level.
    pub open spec fn level_open(&self) -> bool {
        &&& self.assignment_stack.trail().len() > 0
        &&& self.assignment_stack.starts().len() > 0
        &&& self.assignment_stack.starts().last() < self.assignment_stack.trail().len()
    }

    /// Where the search started sound and from nothing assigned: the trail holds exactly the
    /// assigned variables; outside a conflict each queued clause has every literal but its first
    /// watched one false; each trail entry holds in every model that agrees with the decisions
    /// at or before it; a conflict comes with a false clause; and `Unsat` means no model.
    pub open spec fn refutation_ok(&self) -> bool {
        let t = self.assignment_stack.trail();
        let a = self.cnf_formula.assignments@;
        let cls = self.cnf_formula.clauses@;
        let cs = clause_lits(cls);
        let n = self.cnf_formula.variable_count as nat;
        self.sound@ ==> {
            &&& trail_matches(t, a)
            &&& self.status != DpllStatus::Conflict && self.status != DpllStatus::Unsat ==> forall|q: int|
                0 <= q < self.unit_queue@.len() ==> rest_false(a, cls[(#[trigger] self.unit_queue@[q]) as int])
            &&& decisions_imply(t, self.assignment_stack.starts(), cs, n)
            &&& self.status == DpllStatus::Conflict ==> exists|c: int|
                0 <= c < cls.len() && clause_falsified(a, #[trigger] cls[c].literals@)
            &&& self.status == DpllStatus::Unsat ==> forall|m: Seq<bool>| !is_model(m, cs, n)
        }
    }

    /// No variable of the formula is assigned.
    pub open spec fn nothing_assigned(&self) -> bool {
        forall|i: int|
            0 <= i < self.cnf_formula.assignments@.len() ==> self.cnf_formula.assignments@[i] is None
    }

    pub fn new(cnf_formula: CnfFormula, heuristic: Box<dyn Heuristic>) -> (r: Dpll)
        requires
            cnf_formula.wf(),
            forall|i: int| 0 <= i < cnf_formula.assignments@.len() ==> cnf_formula.assignments@[i] is None,
        ensures
            r.wf(),
            r.cnf_formula == cnf_formula,
            r.unit_queue@.len() == 0,
            r.assignment_stack.trail().len() == 0,
            r.status == DpllStatus::Incomplete,
            r.sound@ == watches_sound(cnf_formula),
            r.refutation_ok(),
    {
        let ghost sound = watches_sound(cnf_formula);
        let r = Dpll {
            heuristic,
            cnf_formula,
            unit_queue: VecDeque::new(),
            assignment_stack: AssignmentStack::new(),
            status: DpllStatus::Incomplete,
            sound: Ghost(sound),
            rounds: Ghost(0),
        };
        assert(r.assignment_stack.starts()[0] == -1);
        assert(r.assignment_stack.starts()[1] == 0);
        proof {
            lemma_nothing_false_alive(r.cnf_formula.assignments@, r.cnf_formula.clauses@);
            assert(r.assignment_stack.trail() =~= Seq::<Assignment>::empty());
            lemma_empty_trail_implies(
                r.assignment_stack.starts(),
                clause_lits(r.cnf_formula.clauses@),
                r.cnf_formula.variable_count as nat,
            );
        }
        r
    }

    /// Applies an assignment to an unassigned variable and records it on the trail; the status
    /// becomes `Conflict` when a clause turns false, and `Sat` when every variable is assigned.
    pub(crate) fn assign(&mut self, assignment: Assignment)
        requires
            old(self).wf(),
            old(self).status != DpllStatus::Unsat,
            old(self).status != DpllStatus::Conflict,
            1 <= assignment.variable_id <= old(self).cnf_formula.variable_count,
            old(self).cnf_formula.assignments@[assignment.variable_id - 1] is None,
            old(self).sound@ ==> {
                &&& trail_matches(old(self).assignment_stack.trail(), old(self).cnf_formula.assignments@)
                &&& forall|q: int|
                    0 <= q < old(self).unit_queue@.len() ==> rest_false(
                        old(self).cnf_formula.assignments@,
                        old(self).cnf_formula.clauses@[(#[trigger] old(self).unit_queue@[q]) as int],
                    )
                &&& decisions_imply(
                    old(self).assignment_stack.trail().push(assignment),
                    old(self).assignment_stack.starts(),
                    clause_lits(old(self).cnf_formula.clauses@),
                    old(self).cnf_formula.variable_count as nat,
                )
            },
        ensures
            final(self).refutation_ok(),
            final(self).wf(),
            final(self).sound == old(self).sound,
            final(self).sound@ ==> final(self).level_open(),
            final(self).heuristic == old(self).heuristic,
            final(self).cnf_formula.assignments@ == old(self).cnf_formula.assignments@.update(
                assignment.variable_id - 1,
                Some(assignment.value),
            ),
            same_literals(old(self).cnf_formula.clauses@, final(self).cnf_formula.clauses@),
            final(self).sound == old(self).sound,
            final(self).cnf_formula.variable_count == old(self).cnf_formula.variable_count,
            final(self).assignment_stack.trail() == old(self).assignment_stack.trail().push(assignment),
            final(self).assignment_stack.starts() == old(self).assignment_stack.starts(),
            final(self).status == old(self).status || final(self).status == DpllStatus::Conflict
                || final(self).status == DpllStatus::Sat,
            old(self).unit_queue@.len() <= final(self).unit_queue@.len(),
            final(self).unit_queue@.subrange(0, old(self).unit_queue@.len() as int) == old(self).unit_queue@,
    {
        let ghost t0 = self.assignment_stack.trail();
        let ghost q0 = self.unit_queue@;
        let cdcl_assignment = crate::cdcl::assignment::Assignment::new(
            assignment.variable_id,
            assignment.value,
            None,
        );
        let assignment_result = self.cnf_formula.apply_assignment(&cdcl_assignment, &mut self.unit_queue);
        self.assignment_stack.push_assignment(assignment);
        proof {
            assert forall|k: int| 0 <= k < self.unit_queue@.len() implies (#[trigger] self.unit_queue@[k])
                < self.cnf_formula.clauses@.len() by {
                if k < q0.len() {
                    assert(self.unit_queue@.subrange(0, q0.len() as int)[k] == q0[k]);
                }
            }
            let t1 = self.assignment_stack.trail();
            assert forall|k: int| 0 <= k < t1.len() implies 1 <= (#[trigger] t1[k]).variable_id
                <= self.cnf_formula.variable_count && self.cnf_formula.assignments@[t1[k].variable_id - 1]
                == Some(t1[k].value) by {
                if k < t0.len() {
                    assert(t1[k] == t0[k]);
                    assert(t0[k].variable_id != assignment.variable_id);
                }
            }
            assert forall|j: int, k: int| 0 <= j < k < t1.len() implies (#[trigger] t1[j]).variable_id
                != (#[trigger] t1[k]).variable_id by {
                if k == t0.len() {
                    assert(t1[j] == t0[j]);
                }
            }
        }
        proof {
            let a0 = old(self).cnf_formula.assignments@;
            assert(self.cnf_formula.assignments@.update(assignment.variable_id - 1, None) =~= a0);
            assert(self.assignment_stack.trail().last() == assignment);
            if self.sound@ {
                assert forall|k: int| 0 <= k < self.assignment_stack.starts().len() implies #[trigger] self.assignment_stack.starts()[k]
                    <= self.assignment_stack.trail().len() by {
                    assert(old(self).assignment_stack.starts()[k] <= old(self).assignment_stack.trail().len());
                }
                let st = self.assignment_stack.starts();
                assert(st.last() <= old(self).assignment_stack.trail().len());
            }
        }
        proof {
            if self.sound@ {
                let a0 = old(self).cnf_formula.assignments@;
                let a1 = self.cnf_formula.assignments@;
                let cls0 = old(self).cnf_formula.clauses@;
                let cls1 = self.cnf_formula.clauses@;
                let t1 = self.assignment_stack.trail();
                assert(clause_lits(cls1) =~= clause_lits(cls0)) by {
                    assert forall|c: int| 0 <= c < cls0.len() implies clause_lits(cls1)[c] == clause_lits(cls0)[c] by {
                        assert(cls1[c].literals@ == cls0[c].literals@);
                    }
                }
                assert forall|k: int| 0 <= k < t1.len() implies 1 <= (#[trigger] t1[k]).variable_id <= a1.len()
                    && a1[t1[k].variable_id - 1] == Some(t1[k].value) by {
                    if k < t0.len() {
                        assert(t1[k] == t0[k]);
                    }
                }
                assert forall|v: int| 0 <= v < a1.len() && (#[trigger] a1[v]) is Some implies exists|k: int|
                    0 <= k < t1.len() && t1[k].variable_id == v + 1 by {
                    if v == assignment.variable_id - 1 {
                        assert(t1[t0.len() as int] == assignment);
                    } else {
                        assert(a0[v] is Some);
                        let k = choose|k: int| 0 <= k < t0.len() && t0[k].variable_id == v + 1;
                        assert(t1[k] == t0[k]);
                    }
                }
                let q = self.unit_queue@;
                assert forall|p: int| 0 <= p < q.len() implies rest_false(a1, cls1[(#[trigger] q[p]) as int]) by {
                    let c = q[p] as int;
                    if p < q0.len() {
                        assert(q.subrange(0, q0.len() as int)[p] == q0[p]);
                        assert(rest_false(a0, cls0[c]));
                        assert forall|i: int|
                            0 <= i < cls1[c].literals@.len() && cls1[c].literals@[i] != cls1[c].watched1 implies lit_false(
                                a1,
                                #[trigger] cls1[c].literals@[i],
                            ) by {
                            assert(cls1[c].literals@[i] == cls0[c].literals@[i]);
                        }
                    }
                }
            }
        }
        match assignment_result {
            crate::cdcl::assignment::AssignmentResult::Conflict(c) => {
                proof {
                    assert(clause_falsified(self.cnf_formula.assignments@, self.cnf_formula.clauses@[c as int].literals@));
                }
                self.status = DpllStatus::Conflict;
            },
            crate::cdcl::assignment::AssignmentResult::Success => {
                if self.cnf_formula.all_assigned() {
                    self.status = DpllStatus::Sat;
                }
            },
        }
    }
}


/// Undoing the assignments of a suffix of a trail keeps the rest of the trail in order.
proof fn lemma_trail_take(t: Seq<Assignment>, f0: CnfFormula, f1: CnfFormula, keep: int)
    requires
        trail_ok(t, f0),
        f0.wf(),
        0 <= keep <= t.len(),
        f1.variable_count == f0.variable_count,
        f1.assignments@ == unassigned_by(f0.assignments@, t.skip(keep)),
    ensures
        trail_ok(t.take(keep), f1),
{
    let tk = t.take(keep);
    assert forall|k: int| 0 <= k < tk.len() implies 1 <= (#[trigger] tk[k]).variable_id
        <= f1.variable_count && f1.assignments@[tk[k].variable_id - 1] == Some(tk[k].value) by {
        assert(tk[k] == t[k]);
        let i = t[k].variable_id - 1;
        let s = t.skip(keep);
        if exists|j: int| 0 <= j < s.len() && s[j].variable_id == i + 1 {
            let j = choose|j: int| 0 <= j < s.len() && s[j].variable_id == i + 1;
            assert(s[j] == t[keep + j]);
            assert(t[k].variable_id != t[keep + j].variable_id);
        }
    }
    assert forall|j: int, k: int| 0 <= j < k < tk.len() implies (#[trigger] tk[j]).variable_id
        != (#[trigger] tk[k]).variable_id by {
        assert(tk[j] == t[j] && tk[k] == t[k]);
    }
}

/// Undoing the last assignment of a trail keeps the rest of the trail in order.
proof fn lemma_trail_drop_last(t: Seq<Assignment>, f0: CnfFormula, f1: CnfFormula)
    requires
        trail_ok(t, f0),
        f0.wf(),
        t.len() > 0,
        f1.variable_count == f0.variable_count,
        f1.assignments@ == f0.assignments@.update(t.last().variable_id - 1, None),
    ensures
        trail_ok(t.drop_last(), f1),
{
    let td = t.drop_last();
    assert forall|k: int| 0 <= k < td.len() implies 1 <= (#[trigger] td[k]).variable_id
        <= f1.variable_count && f1.assignments@[td[k].variable_id - 1] == Some(td[k].value) by {
        assert(td[k] == t[k]);
        assert(t[k].variable_id != t[t.len() - 1].variable_id);
    }
    assert forall|j: int, k: int| 0 <= j < k < td.len() implies (#[trigger] td[j]).variable_id
        != (#[trigger] td[k]).variable_id by {
        assert(td[j] == t[j] && td[k] == t[k]);
    }
}

impl Dpll {
    /// Undoes the current decision level and flips its decision, then propagates; with
    /// nothing left to flip the search is `Unsat`.
    #[verifier::spinoff_prover]
    #[verifier::rlimit(40)]
    fn backtrack(&mut self)
        requires
            old(self).wf(),
            old(self).status == DpllStatus::Conflict,
            old(self).refutation_ok(),
        ensures
            final(self).wf(),
            final(self).refutation_ok(),
            final(self).heuristic == old(self).heuristic,
            same_literals(old(self).cnf_formula.clauses@, final(self).cnf_formula.clauses@),
            final(self).sound == old(self).sound,
            final(self).cnf_formula.variable_count == old(self).cnf_formula.variable_count,
            final(self).assignment_stack.starts().len() < old(self).assignment_stack.starts().len(),
            final(self).assignment_stack.starts() == old(self).assignment_stack.starts().drop_last(),
            (final(self).status == DpllStatus::Unsat) == (kept_on_undo(
                old(self).assignment_stack.starts().last() as int,
                old(self).assignment_stack.trail().len() as int,
            ) == 0),
            final(self).status != DpllStatus::Unsat ==> flipped_at(
                final(self).assignment_stack.trail(),
                old(self).assignment_stack.trail(),
                kept_on_undo(
                    old(self).assignment_stack.starts().last() as int,
                    old(self).assignment_stack.trail().len() as int,
                ) - 1,
            ),
            final(self).status != DpllStatus::Incomplete ==> final(self).status == DpllStatus::Unsat
                || final(self).status == DpllStatus::Conflict || final(self).status == DpllStatus::Sat,
            final(self).status != DpllStatus::Unsat && final(self).status != DpllStatus::Conflict
                ==> final(self).unit_queue@.len() == 0,
    {
        self.status = DpllStatus::Incomplete;
        proof {
            lemma_trail_len(self.assignment_stack.trail(), self.cnf_formula);
        }
        let ghost t0 = self.assignment_stack.trail();
        let ghost f0 = self.cnf_formula;
        let ghost s0 = self.assignment_stack.starts();
        self.assignment_stack.undo_assignment_current_decision_level(&mut self.cnf_formula);
        proof {
            let keep = kept_on_undo(s0.last() as int, t0.len() as int);
            lemma_trail_take(t0, f0, self.cnf_formula, keep);
            assert forall|k: int| 0 <= k < self.assignment_stack.starts().len() implies -1
                <= #[trigger] self.assignment_stack.starts()[k] < i32::MAX by {
                assert(self.assignment_stack.starts()[k] == s0[k]);
            }
            if s0.len() == 1 {
                assert(s0.last() == -1);
            }
        }
        let ghost cs = clause_lits(f0.clauses@);
        let ghost n = f0.variable_count as nat;
        let ghost a0 = f0.assignments@;
        proof {
            if self.sound@ {
                assert(clause_lits(self.cnf_formula.clauses@) == cs);
                let c = choose|c: int| 0 <= c < f0.clauses@.len() && clause_falsified(a0, #[trigger] f0.clauses@[c].literals@);
                assert(cs[c] == f0.clauses@[c].literals@);
                assert(clause_wf(f0.clauses@[c], f0.variable_count as int));
            }
        }
        if self.assignment_stack.is_empty() {
            proof {
                if self.sound@ {
                    let c = choose|c: int| 0 <= c < f0.clauses@.len() && clause_falsified(a0, #[trigger] f0.clauses@[c].literals@);
                    assert(s0.last() == -1);
                    assert forall|i: int| 0 <= i < s0.len() implies #[trigger] s0[i] < 0 by {
                        assert(s0[i] <= s0[s0.len() - 1]);
                    }
                    lemma_conflict_without_decisions(t0, s0, cs, n, a0, f0.clauses@[c].literals@);
                    crate::dpll::refutation::lemma_undo_matches(t0, a0, 0);
                    assert(t0.take(0) =~= Seq::<Assignment>::empty());
                    assert(self.assignment_stack.trail() =~= Seq::<Assignment>::empty());
                    lemma_empty_trail_implies(self.assignment_stack.starts(), cs, n);
                }
            }
            self.status = DpllStatus::Unsat;
        } else {
            assert(s0.len() > 1);
            assert(self.assignment_stack.starts()[0] == s0[0]);
            let ghost t1 = self.assignment_stack.trail();
            let ghost f1 = self.cnf_formula;
            let branching = self.assignment_stack.undo_last_assignment(&mut self.cnf_formula);
            proof {
                lemma_trail_drop_last(t1, f1, self.cnf_formula);
                if self.sound@ {
                    let keep = kept_on_undo(s0.last() as int, t0.len() as int);
                    assert(keep == s0.last() + 1);
                    let x = t0.last().variable_id - 1;
                    let b = f0.assignments@.update(x, None);
                    let a2 = self.cnf_formula.assignments@;
                    assert forall|i: int| 0 <= i < a2.len() && a2[i] is Some implies a2[i] == b[i] by {
                        if keep < t0.len() {
                            assert(t0.skip(keep)[t0.len() - 1 - keep] == t0.last());
                        }
                    }
                    lemma_alive_fewer(b, a2, self.cnf_formula.clauses@);
                    let st = self.assignment_stack.starts();
                    assert forall|k: int| 0 <= k < st.len() implies #[trigger] st[k]
                        <= self.assignment_stack.trail().len() by {
                        assert(st[k] == s0[k]);
                        assert(s0[k] <= s0[s0.len() - 1]);
                    }
                    assert forall|i: int, j: int| 0 <= i < j < st.len() implies st[i] <= st[j] by {
                        assert(st[i] == s0[i] && st[j] == s0[j]);
                    }
                }
            }
            self.unit_queue.clear();
            let inverted = branching.inverse();
            proof {
                if self.sound@ {
                    let c = choose|c: int| 0 <= c < f0.clauses@.len() && clause_falsified(a0, #[trigger] f0.clauses@[c].literals@);
                    let sl = s0.last() as int;
                    assert(t1 =~= t0.take(sl + 1));
                    assert(branching == t0[sl]);
                    assert forall|i: int| 0 <= i < s0.len() implies #[trigger] s0[i] <= s0.last() by {
                        if i < s0.len() - 1 {
                            assert(s0[i] <= s0[s0.len() - 1]);
                        }
                    }
                    lemma_flip_implied(t0, s0, cs, n, a0, f0.clauses@[c].literals@, inverted);
                    crate::dpll::refutation::lemma_undo_matches(t0, a0, sl + 1);
                    crate::dpll::refutation::lemma_drop_last_matches(t1, f1.assignments@);
                    assert(t1.drop_last() =~= t0.take(sl));
                    assert(self.unit_queue@.len() == 0);
                }
            }
            self.assign(inverted);
            let ghost t3 = self.assignment_stack.trail();
            self.propagate_unit_clauses();
            proof {
                let keep = kept_on_undo(s0.last() as int, t0.len() as int);
                let t = self.assignment_stack.trail();
                assert(keep >= 1);
                assert(t1 =~= t0.take(keep));
                assert(t3 =~= t0.take(keep - 1).push(inverted));
                assert forall|i: int| 0 <= i < keep - 1 implies t[i] == t0[i] by {
                    assert(t.subrange(0, t3.len() as int)[i] == t3[i]);
                }
                assert(t[keep - 1] == inverted) by {
                    assert(t.subrange(0, t3.len() as int)[keep - 1] == t3[keep - 1]);
                }
                assert(t.take(keep - 1) =~= t0.take(keep - 1));
            }
        }
    }
}

/// The trail `t` agrees with `t0` before position `k`, and holds at `k` the assignment of
/// `t0` there with the other value.
pub open spec fn flipped_at(t: Seq<Assignment>, t0: Seq<Assignment>, k: int) -> bool {
    &&& 0 <= k < t.len()
    &&& k < t0.len()
    &&& t.take(k) == t0.take(k)
    &&& t[k].variable_id == t0[k].variable_id
    &&& t[k].value == !t0[k].value
}

/// The trail `t` extends `t0` by at least one entry, the first of which assigns a variable
/// that `a0` leaves unassigned.
pub open spec fn extends_with_new_var(t: Seq<Assignment>, t0: Seq<Assignment>, a0: Seq<Option<bool>>) -> bool {
    &&& t0.len() < t.len()
    &&& t.take(t0.len() as int) == t0
    &&& a0[t[t0.len() as int].variable_id - 1] is None
}

/// Where a branching step from trail `t0`, decision starts `s0` and assignments `a0` can end:
/// the new decision stands on a new level; or it was flipped on that level, which then merges
/// into the level below; or the search backtracked past the levels of `s0`, keeping a prefix of
/// them.
pub open spec fn branch_outcome(
    t: Seq<Assignment>,
    s: Seq<i32>,
    t0: Seq<Assignment>,
    s0: Seq<i32>,
    a0: Seq<Option<bool>>,
) -> bool {
    ||| s == s0.push(t0.len() as i32) && extends_with_new_var(t, t0, a0)
    ||| s == s0 && extends_with_new_var(t, t0, a0)
    ||| s.len() < s0.len() && s == s0.take(s.len() as int)
}


impl Dpll {
    /// One branching step: picks an assignment with the heuristic, opens a decision level for
    /// it, applies it and propagates, then backtracks for as long as there is a conflict.
    /// Returns the number of unit clauses propagated right after the decision.
    fn branch(&mut self) -> (units: usize)
        requires
            old(self).wf(),
            old(self).status == DpllStatus::Incomplete,
            exists|i: int|
                0 <= i < old(self).cnf_formula.assignments@.len()
                    && old(self).cnf_formula.assignments@[i] is None,
            old(self).refutation_ok(),
        ensures
            final(self).refutation_ok(),
            final(self).wf(),
            same_literals(old(self).cnf_formula.clauses@, final(self).cnf_formula.clauses@),
            final(self).sound == old(self).sound,
            final(self).cnf_formula.variable_count == old(self).cnf_formula.variable_count,
            final(self).status != DpllStatus::Conflict,
            branch_outcome(
                final(self).assignment_stack.trail(),
                final(self).assignment_stack.starts(),
                old(self).assignment_stack.trail(),
                old(self).assignment_stack.starts(),
                old(self).cnf_formula.assignments@,
            ),
            final(self).status == DpllStatus::Unsat ==> final(self).assignment_stack.starts().len()
                < old(self).assignment_stack.starts().len(),
            final(self).status != DpllStatus::Unsat ==> final(self).unit_queue@.len() == 0,
    {
        let assignment = self.heuristic.chose_next_assignment(
            &self.cnf_formula,
            self.assignment_stack.get_decision_level(),
        );
        proof {
            lemma_trail_len(self.assignment_stack.trail(), self.cnf_formula);
        }
        let ghost s0 = self.assignment_stack.starts();
        self.assignment_stack.start_decision_level();
        proof {
            assert forall|k: int| 0 <= k < self.assignment_stack.starts().len() implies -1
                <= #[trigger] self.assignment_stack.starts()[k] < i32::MAX by {
                if k < s0.len() {
                    assert(self.assignment_stack.starts()[k] == s0[k]);
                }
            }
            assert(self.assignment_stack.starts()[0] == s0[0]);
        }
        proof {
            if self.sound@ {
                lemma_decision_implied(
                    self.assignment_stack.trail(),
                    s0,
                    clause_lits(self.cnf_formula.clauses@),
                    self.cnf_formula.variable_count as nat,
                    assignment,
                );
            }
        }
        self.assign(assignment);
        let ghost t1 = self.assignment_stack.trail();
        let units = self.propagate_unit_clauses();
        proof {
            let t = self.assignment_stack.trail();
            let l = old(self).assignment_stack.trail().len() as int;
            assert(t.subrange(0, t1.len() as int)[l] == t1[l]);
            assert(t.take(l) =~= old(self).assignment_stack.trail()) by {
                assert forall|i: int| 0 <= i < l implies t.take(l)[i] == old(self).assignment_stack.trail()[i] by {
                    assert(t.subrange(0, t1.len() as int)[i] == t1[i]);
                }
            }
        }
        while self.status == DpllStatus::Conflict
            invariant
                self.wf(),
                same_literals(old(self).cnf_formula.clauses@, self.cnf_formula.clauses@),
                self.sound == old(self).sound,
                self.refutation_ok(),
                self.cnf_formula.variable_count == old(self).cnf_formula.variable_count,
                branch_outcome(
                    self.assignment_stack.trail(),
                    self.assignment_stack.starts(),
                    old(self).assignment_stack.trail(),
                    old(self).assignment_stack.starts(),
                    old(self).cnf_formula.assignments@,
                ),
                self.status == DpllStatus::Unsat ==> self.assignment_stack.starts().len()
                    < old(self).assignment_stack.starts().len(),
                old(self).assignment_stack.trail().len() < i32::MAX,
                self.status != DpllStatus::Unsat && self.status != DpllStatus::Conflict
                    ==> self.unit_queue@.len() == 0,
            decreases self.assignment_stack.starts().len(),
        {
            let ghost t2 = self.assignment_stack.trail();
            let ghost s2 = self.assignment_stack.starts();
            self.backtrack();
            proof {
                let t0 = old(self).assignment_stack.trail();
                let s0 = old(self).assignment_stack.starts();
                let s = self.assignment_stack.starts();
                if s2 == s0.push(t0.len() as i32) {
                    assert(s2.len() == s0.len() + 1);
                    assert(extends_with_new_var(t2, t0, old(self).cnf_formula.assignments@));
                    let keep = kept_on_undo(s2.last() as int, t2.len() as int);
                    assert(keep == t0.len() + 1);
                    assert(s =~= s0);
                    let t = self.assignment_stack.trail();
                    assert(t.take(t0.len() as int) =~= t2.take(t0.len() as int));
                    assert(t2.take(t0.len() as int) =~= t0);
                } else if s2 == s0 {
                    assert(s =~= s0.take(s.len() as int));
                } else {
                    assert(s =~= s0.take(s.len() as int));
                }
            }
        }
        units
    }

    /// The search loop: branches while the status is `Incomplete`, the cancel flag (if any) is
    /// clear and fewer than `usize::MAX` branching steps have been taken; with `learning`, the
    /// heuristic learns after each step how many unit clauses its choice propagated. With every
    /// variable assigned and no conflict, the status becomes `Sat`. Without a cancel flag the
    /// search ends `Incomplete` only when it has used up its steps.
    fn search(&mut self, cancel_flag: Option<&std::sync::atomic::AtomicBool>, learning: bool)
        requires
            old(self).wf(),
            old(self).status != DpllStatus::Conflict,
            old(self).refutation_ok(),
        ensures
            final(self).refutation_ok(),
            final(self).wf(),
            final(self).status != DpllStatus::Conflict,
            same_literals(old(self).cnf_formula.clauses@, final(self).cnf_formula.clauses@),
            final(self).sound == old(self).sound,
            final(self).cnf_formula.variable_count == old(self).cnf_formula.variable_count,
            old(self).status != DpllStatus::Incomplete ==> final(self).cnf_formula == old(self).cnf_formula
                && final(self).status == old(self).status && final(self).unit_queue == old(self).unit_queue
                && final(self).assignment_stack == old(self).assignment_stack,
            old(self).unit_queue@.len() == 0 && final(self).status != DpllStatus::Unsat
                ==> final(self).unit_queue@.len() == 0,
            cancel_flag is None && final(self).status == DpllStatus::Incomplete ==> final(self).rounds@
                == usize::MAX,
    {
        let mut rounds: usize = 0;
        proof {
            self.rounds = Ghost(0);
        }
        while rounds < usize::MAX
            invariant
                self.wf(),
                self.status != DpllStatus::Conflict,
                same_literals(old(self).cnf_formula.clauses@, self.cnf_formula.clauses@),
                self.refutation_ok(),
                self.sound == old(self).sound,
                self.cnf_formula.variable_count == old(self).cnf_formula.variable_count,
                old(self).status != DpllStatus::Incomplete ==> self.cnf_formula == old(self).cnf_formula
                    && self.status == old(self).status && self.unit_queue == old(self).unit_queue
                    && self.assignment_stack == old(self).assignment_stack,
                old(self).unit_queue@.len() == 0 && self.status != DpllStatus::Unsat
                    ==> self.unit_queue@.len() == 0,
                self.rounds@ == rounds,
            ensures
                self.wf(),
                self.status != DpllStatus::Conflict,
                same_literals(old(self).cnf_formula.clauses@, self.cnf_formula.clauses@),
                self.refutation_ok(),
                self.sound == old(self).sound,
                self.cnf_formula.variable_count == old(self).cnf_formula.variable_count,
                old(self).status != DpllStatus::Incomplete ==> self.cnf_formula == old(self).cnf_formula
                    && self.status == old(self).status && self.unit_queue == old(self).unit_queue
                    && self.assignment_stack == old(self).assignment_stack,
                old(self).unit_queue@.len() == 0 && self.status != DpllStatus::Unsat
                    ==> self.unit_queue@.len() == 0,
                cancel_flag is None && self.status == DpllStatus::Incomplete ==> self.rounds@ == usize::MAX,
            decreases usize::MAX - rounds,
        {
            if self.status != DpllStatus::Incomplete {
                break;
            }
            if let Some(flag) = cancel_flag {
                if flag.load(std::sync::atomic::Ordering::Relaxed) {
                    break;
                }
            }
            if self.cnf_formula.all_assigned() {
                self.status = DpllStatus::Sat;
                break;
            }
            let ghost r0 = self.rounds@;
            let units = self.branch();
            if learning {
                self.heuristic.feedback(Stats { unit_clauses: units });
            }
            rounds = rounds + 1;
            proof {
                self.rounds = Ghost(r0 + 1);
            }
        }
    }

    /// The search loop: branches while the status is `Incomplete`, the cancel flag is clear
    /// and fewer than `usize::MAX` branching steps have been taken. With every variable
    /// assigned and no conflict, the status becomes `Sat`.
    pub fn dpll(&mut self, cancel_flag: &std::sync::atomic::AtomicBool)
        requires
            old(self).wf(),
            old(self).status != DpllStatus::Conflict,
            old(self).refutation_ok(),
        ensures
            final(self).refutation_ok(),
            final(self).wf(),
            final(self).status != DpllStatus::Conflict,
            old(self).status != DpllStatus::Incomplete ==> final(self).cnf_formula == old(self).cnf_formula
                && final(self).status == old(self).status && final(self).unit_queue == old(self).unit_queue
                && final(self).assignment_stack == old(self).assignment_stack,
            old(self).unit_queue@.len() == 0 && final(self).status != DpllStatus::Unsat
                ==> final(self).unit_queue@.len() == 0,
            same_literals(old(self).cnf_formula.clauses@, final(self).cnf_formula.clauses@),
            final(self).sound == old(self).sound,
            final(self).cnf_formula.variable_count == old(self).cnf_formula.variable_count,
    {
        self.search(Some(cancel_flag), false)
    }

    /// The search loop for a learning heuristic: as `dpll`, and after each branching step
    /// the heuristic learns how many unit clauses its choice propagated.
    pub fn learning_dpll(&mut self, cancel_flag: &std::sync::atomic::AtomicBool)
        requires
            old(self).wf(),
            old(self).status != DpllStatus::Conflict,
            old(self).refutation_ok(),
        ensures
            final(self).refutation_ok(),
            final(self).wf(),
            final(self).status != DpllStatus::Conflict,
            old(self).status != DpllStatus::Incomplete ==> final(self).cnf_formula == old(self).cnf_formula
                && final(self).status == old(self).status && final(self).unit_queue == old(self).unit_queue
                && final(self).assignment_stack == old(self).assignment_stack,
            old(self).unit_queue@.len() == 0 && final(self).status != DpllStatus::Unsat
                ==> final(self).unit_queue@.len() == 0,
            same_literals(old(self).cnf_formula.clauses@, final(self).cnf_formula.clauses@),
            final(self).sound == old(self).sound,
            final(self).cnf_formula.variable_count == old(self).cnf_formula.variable_count,
    {
        self.search(Some(cancel_flag), true)
    }

    /// Propagates the unit clauses of the formula; a conflict there makes the formula `Unsat`.
    /// Otherwise each of those clauses ends satisfied, with nothing left in the unit queue.
    fn preprocess(&mut self)
        requires
            old(self).wf(),
            old(self).status == DpllStatus::Incomplete,
            old(self).sound@ ==> old(self).nothing_assigned(),
            old(self).refutation_ok(),
        ensures
            final(self).refutation_ok(),
            final(self).wf(),
            final(self).status != DpllStatus::Conflict,
            final(self).status == DpllStatus::Incomplete || final(self).status == DpllStatus::Sat
                || final(self).status == DpllStatus::Unsat,
            final(self).assignment_stack.starts() == old(self).assignment_stack.starts(),
            old(self).assignment_stack.trail().len() <= final(self).assignment_stack.trail().len(),
            final(self).assignment_stack.trail().subrange(0, old(self).assignment_stack.trail().len() as int)
                == old(self).assignment_stack.trail(),
            final(self).status != DpllStatus::Unsat ==> final(self).unit_queue@.len() == 0,
            final(self).status != DpllStatus::Unsat ==> forall|c: int|
                0 <= c < old(self).cnf_formula.clauses@.len() && is_unit_clause(
                    old(self).cnf_formula.assignments@,
                    #[trigger] old(self).cnf_formula.clauses@[c].literals@,
                ) ==> clause_satisfied(final(self).cnf_formula.assignments@, final(self).cnf_formula.clauses@[c].literals@),
            same_literals(old(self).cnf_formula.clauses@, final(self).cnf_formula.clauses@),
            final(self).sound == old(self).sound,
            final(self).cnf_formula.variable_count == old(self).cnf_formula.variable_count,
    {
        let ghost f0 = self.cnf_formula;
        self.unit_queue = self.cnf_formula.generate_unit_queue();
        let ghost q = self.unit_queue@;
        proof {
            assert(f0 == old(self).cnf_formula);
            if self.sound@ {
                let a = self.cnf_formula.assignments@;
                let cls = self.cnf_formula.clauses@;
                assert forall|p: int| 0 <= p < q.len() implies rest_false(a, cls[(#[trigger] q[p]) as int]) by {
                    let c = q[p] as int;
                    assert(q.contains(q[p]));
                    let lits = cls[c].literals@;
                    assert(is_unit_clause(a, lits));
                    let w = choose|w: i32| clause_unit_on(a, lits, w);
                    assert(clause_wf(cls[c], self.cnf_formula.variable_count as int));
                    assert forall|i: int| 0 <= i < lits.len() implies lits[i] == w by {
                        assert(1 <= var_of(lits[i]) <= self.cnf_formula.variable_count);
                        if lits[i] != w {
                            assert(lit_false(a, lits[i]));
                        }
                    }
                    let k1 = choose|k: int| 0 <= k < lits.len() && lits[k] == cls[c].watched1;
                    assert(lits[k1] == w);
                }
            }
        }
        proof {
            if self.sound@ {
                assert(self.assignment_stack.trail().len() == 0) by {
                    if self.assignment_stack.trail().len() > 0 {
                        let e = self.assignment_stack.trail()[0];
                        assert(self.cnf_formula.assignments@[e.variable_id - 1] is Some);
                    }
                }
                let a = self.cnf_formula.assignments@;
                let cls = self.cnf_formula.clauses@;
                assert forall|p: int| 0 <= p < q.len() implies crate::dpll::unit_propagation::single_lit(
                    cls[(#[trigger] q[p]) as int].literals@,
                ) by {
                    let c = q[p] as int;
                    assert(q.contains(q[p]));
                    let lits = cls[c].literals@;
                    let w = choose|w: i32| clause_unit_on(a, lits, w);
                    assert(clause_wf(cls[c], self.cnf_formula.variable_count as int));
                    assert forall|i: int| 0 <= i < lits.len() implies #[trigger] lits[i] == lits[0] by {
                        assert(1 <= var_of(lits[i]) <= self.cnf_formula.variable_count);
                        assert(1 <= var_of(lits[0]) <= self.cnf_formula.variable_count);
                        if lits[i] != w {
                            assert(lit_false(a, lits[i]));
                        }
                        if lits[0] != w {
                            assert(lit_false(a, lits[0]));
                        }
                    }
                }
            }
        }
        let ghost f1 = self.cnf_formula;
        let ghost st = self.assignment_stack.starts();
        self.propagate_unit_clauses();
        proof {
            if self.sound@ && self.status == DpllStatus::Conflict {
                let t = self.assignment_stack.trail();
                let a = self.cnf_formula.assignments@;
                let cls = self.cnf_formula.clauses@;
                let cs = clause_lits(cls);
                let n = self.cnf_formula.variable_count as nat;
                assert(clause_lits(f1.clauses@) =~= cs) by {
                    assert forall|c: int| 0 <= c < cs.len() implies clause_lits(f1.clauses@)[c] == cs[c] by {
                        assert(f1.clauses@[c].literals@ == cls[c].literals@);
                    }
                }
                let c = choose|c: int| 0 <= c < cls.len() && clause_falsified(a, #[trigger] cls[c].literals@);
                assert(cs[c] == cls[c].literals@);
                assert(clause_wf(cls[c], n as int));
                assert forall|i: int| 0 <= i < st.len() implies #[trigger] st[i] <= 0 by {
                    assert(old(self).assignment_stack.starts()[i] <= old(self).assignment_stack.trail().len());
                }
                if t.len() > 0 {
                    assert(crate::dpll::unit_propagation::forced_by_unit_clause(t[0], f1.clauses@));
                    let c0 = choose|c0: int|
                        0 <= c0 < f1.clauses@.len() && crate::dpll::unit_propagation::single_lit(
                            #[trigger] f1.clauses@[c0].literals@,
                        ) && t[0].variable_id == var_of(f1.clauses@[c0].literals@[0]) && t[0].value == (
                        f1.clauses@[c0].literals@[0] > 0);
                    let l0 = f1.clauses@[c0].literals@;
                    assert forall|m: Seq<bool>| is_model(m, cs, n) implies crate::dpll::refutation::agrees(m, t[0]) by {
                        assert(cs[c0] == l0);
                        assert(satisfied_by(m, cs[c0]));
                        let i = choose|i: int| 0 <= i < l0.len() && holds(m, #[trigger] l0[i]);
                        assert(l0[i] == l0[0]);
                    }
                }
                crate::dpll::refutation::lemma_conflict_with_forced_first(t, st, cs, n, a, cls[c].literals@);
            }
        }
        proof {
            if self.status != DpllStatus::Conflict {
                assert forall|c: int|
                    0 <= c < old(self).cnf_formula.clauses@.len() && is_unit_clause(
                        old(self).cnf_formula.assignments@,
                        #[trigger] old(self).cnf_formula.clauses@[c].literals@,
                    ) implies clause_satisfied(self.cnf_formula.assignments@, self.cnf_formula.clauses@[c].literals@) by {
                    assert(is_unit_clause(f0.assignments@, f0.clauses@[c].literals@));
                    assert(self.cnf_formula.clauses.len() == self.cnf_formula.clauses@.len());
                    assert((c as usize) as int == c);
                    assert(q.contains(c as usize));
                    let k = choose|k: int| 0 <= k < q.len() && q[k] == c as usize;
                    assert(clause_satisfied(
                        self.cnf_formula.assignments@,
                        self.cnf_formula.clauses@[q[k] as int].literals@,
                    ));
                    assert(q[k] as int == c);
                }
            }
        }
        if self.status == DpllStatus::Conflict {
            self.status = DpllStatus::Unsat;
        }
    }

    /// Assigns false to every variable left unassigned, once the formula is satisfied. With the
    /// status `Sat` every variable is already assigned, so the state stays as it is.
    fn postprocess(&mut self)
        requires
            old(self).wf(),
            old(self).refutation_ok(),
        ensures
            *final(self) == *old(self),
            final(self).refutation_ok(),
            final(self).wf(),
            final(self).status == old(self).status,
            same_literals(old(self).cnf_formula.clauses@, final(self).cnf_formula.clauses@),
            final(self).sound == old(self).sound,
            final(self).cnf_formula.variable_count == old(self).cnf_formula.variable_count,
    {
        if self.status == DpllStatus::Sat {
            let unassigned = self.cnf_formula.variables.find_all_unassigned(
                self.cnf_formula.assignments.as_slice(),
            );
            proof {
                if unassigned@.len() > 0 {
                    let v = unassigned@[0];
                    assert(unassigned@.contains(v));
                    assert(self.cnf_formula.assignments@[v - 1] is Some);
                }
            }
            assert(unassigned@.len() == 0);
        }
    }

    /// Solves the formula: propagates the initial unit clauses, searches with the heuristic
    /// (learning or not) until the cancel flag, if any, is set, and completes a satisfying
    /// assignment. Without a cancel flag it ends `Incomplete` only when the search has used up
    /// its `usize::MAX` steps.
    fn solve_with(&mut self, cancel_flag: Option<&std::sync::atomic::AtomicBool>) -> (r: DpllStatus)
        requires
            old(self).wf(),
            old(self).status == DpllStatus::Incomplete,
            old(self).refutation_ok(),
        ensures
            old(self).sound@ && old(self).nothing_assigned() && r == DpllStatus::Unsat ==> forall|m: Seq<bool>|
                !is_model(m, clause_lits(old(self).cnf_formula.clauses@), old(self).cnf_formula.variable_count as nat),
            final(self).wf(),
            r == final(self).status,
            r != DpllStatus::Conflict,
            r == DpllStatus::Sat ==> forall|i: int|
                0 <= i < final(self).cnf_formula.assignments@.len()
                    ==> final(self).cnf_formula.assignments@[i] is Some,
            r != DpllStatus::Unsat ==> final(self).unit_queue@.len() == 0,
            same_literals(old(self).cnf_formula.clauses@, final(self).cnf_formula.clauses@),
            final(self).cnf_formula.variable_count == old(self).cnf_formula.variable_count,
            old(self).sound@ && old(self).nothing_assigned() && r == DpllStatus::Sat ==> forall|c: int|
                0 <= c < old(self).cnf_formula.clauses@.len() ==> clause_satisfied(
                    final(self).cnf_formula.assignments@,
                    #[trigger] old(self).cnf_formula.clauses@[c].literals@,
                ),
            cancel_flag is None && r == DpllStatus::Incomplete ==> final(self).rounds@ == usize::MAX,
    {
        let ghost fresh = self.sound@ && self.nothing_assigned();
        proof {
            self.sound@ = self.sound@ && self.nothing_assigned();
        }
        self.preprocess();
        let learning = self.heuristic.is_learning();
        self.search(cancel_flag, learning);
        self.postprocess();
        proof {
            if fresh {
                assert(clause_lits(self.cnf_formula.clauses@) =~= clause_lits(old(self).cnf_formula.clauses@)) by {
                    assert forall|c: int| 0 <= c < old(self).cnf_formula.clauses@.len() implies clause_lits(
                        self.cnf_formula.clauses@,
                    )[c] == clause_lits(old(self).cnf_formula.clauses@)[c] by {
                        assert(self.cnf_formula.clauses@[c].literals@ == old(self).cnf_formula.clauses@[c].literals@);
                    }
                }
            }
            if fresh && self.status == DpllStatus::Sat {
                lemma_alive_all_assigned_satisfied(self.cnf_formula.assignments@, self.cnf_formula.clauses@);
                assert forall|c: int| 0 <= c < old(self).cnf_formula.clauses@.len() implies clause_satisfied(
                    self.cnf_formula.assignments@,
                    #[trigger] old(self).cnf_formula.clauses@[c].literals@,
                ) by {
                    assert(self.cnf_formula.clauses@[c].literals@ == old(self).cnf_formula.clauses@[c].literals@);
                }
            }
        }
        self.status
    }

    /// Solves the formula: propagates the initial unit clauses, searches with the heuristic
    /// (learning or not) until the cancel flag is set, and completes a satisfying assignment.
    pub fn solve_interruptable(&mut self, cancel_flag: &std::sync::atomic::AtomicBool) -> (r: DpllStatus)
        requires
            old(self).wf(),
            old(self).status == DpllStatus::Incomplete,
            old(self).refutation_ok(),
        ensures
            old(self).sound@ && old(self).nothing_assigned() && r == DpllStatus::Unsat ==> forall|m: Seq<bool>|
                !is_model(m, clause_lits(old(self).cnf_formula.clauses@), old(self).cnf_formula.variable_count as nat),
            final(self).wf(),
            r == final(self).status,
            r != DpllStatus::Conflict,
            r == DpllStatus::Sat ==> forall|i: int|
                0 <= i < final(self).cnf_formula.assignments@.len()
                    ==> final(self).cnf_formula.assignments@[i] is Some,
            r != DpllStatus::Unsat ==> final(self).unit_queue@.len() == 0,
            same_literals(old(self).cnf_formula.clauses@, final(self).cnf_formula.clauses@),
            final(self).cnf_formula.variable_count == old(self).cnf_formula.variable_count,
            old(self).sound@ && old(self).nothing_assigned() && r == DpllStatus::Sat ==> forall|c: int|
                0 <= c < old(self).cnf_formula.clauses@.len() ==> clause_satisfied(
                    final(self).cnf_formula.assignments@,
                    #[trigger] old(self).cnf_formula.clauses@[c].literals@,
                ),
    {
        self.solve_with(Some(cancel_flag))
    }

    /// Solves the formula without a way to interrupt the search: the answer is `Sat` or
    /// `Unsat`, unless the search used up its `usize::MAX` branching steps.
    pub fn solve(&mut self) -> (r: DpllStatus)
        requires
            old(self).wf(),
            old(self).status == DpllStatus::Incomplete,
            old(self).refutation_ok(),
        ensures
            old(self).sound@ && old(self).nothing_assigned() && r == DpllStatus::Unsat ==> forall|m: Seq<bool>|
                !is_model(m, clause_lits(old(self).cnf_formula.clauses@), old(self).cnf_formula.variable_count as nat),
            final(self).wf(),
            r == final(self).status,
            r != DpllStatus::Conflict,
            r == DpllStatus::Sat ==> forall|i: int|
                0 <= i < final(self).cnf_formula.assignments@.len()
                    ==> final(self).cnf_formula.assignments@[i] is Some,
            r != DpllStatus::Unsat ==> final(self).unit_queue@.len() == 0,
            same_literals(old(self).cnf_formula.clauses@, final(self).cnf_formula.clauses@),
            final(self).cnf_formula.variable_count == old(self).cnf_formula.variable_count,
            old(self).sound@ && old(self).nothing_assigned() && r == DpllStatus::Sat ==> forall|c: int|
                0 <= c < old(self).cnf_formula.clauses@.len() ==> clause_satisfied(
                    final(self).cnf_formula.assignments@,
                    #[trigger] old(self).cnf_formula.clauses@[c].literals@,
                ),
            r == DpllStatus::Sat || r == DpllStatus::Unsat || final(self).rounds@ == usize::MAX,
    {
        self.solve_with(None)
    }
}

} // verus!
