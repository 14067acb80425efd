use crate::cdcl::assignment::{Assignment, AssignmentResult};
use crate::cdcl::cdcl::{rest_false, trail_ok, Cdcl, CdclStatus};
use crate::dpll::dpll::lemma_alive_fewer;
use crate::cnf::clause::ClauseID;
use crate::cnf::cnf_formula::{lemma_count_unset_update, lemma_watched_in_range, count_unset};
use crate::cnf::literals::{clause_falsified, lit_false, lit_var, var_of};
use vstd::prelude::*;

verus! {

impl Cdcl {
    /// Execute unit propagation. As long as there are unit clauses present in the unit queue,
    /// satisfy them. If this creates any new unit clauses, add them to the queue.
    /// Stops at a conflict; the status becomes `Sat` once every variable is assigned.
    pub fn propagate_unit_clauses(&mut self)
        requires
            old(self).wf(),
            old(self).search_ok(),
        ensures
            final(self).wf(),
            final(self).sound == old(self).sound,
            final(self).original == old(self).original,
            final(self).search_ok(),
            final(self).same_setup(&*old(self)),
            final(self).implication_graph.starts() == old(self).implication_graph.starts(),
            old(self).implication_graph.trail().len() <= final(self).implication_graph.trail().len(),
            final(self).implication_graph.trail().subrange(
                0,
                old(self).implication_graph.trail().len() as int,
            ) == old(self).implication_graph.trail(),
            forall|k: int|
                old(self).implication_graph.trail().len() <= k < final(self).implication_graph.trail().len()
                    ==> (#[trigger] final(self).implication_graph.trail()[k]).reason is Some,
            !(final(self).status is Conflict) ==> final(self).unit_queue@.len() == 0,
            final(self).status == old(self).status || final(self).status is Conflict
                || final(self).status is Sat,
            final(self).status is Sat && final(self).status != old(self).status ==> forall|i: int|
                0 <= i < final(self).cnf_formula.assignments@.len()
                    ==> final(self).cnf_formula.assignments@[i] is Some,
            final(self).status is Conflict && final(self).status != old(self).status ==> {
                let c = final(self).status->Conflict_0 as int;
                clause_falsified(
                    final(self).cnf_formula.assignments@,
                    final(self).cnf_formula.clauses@[c].literals@,
                ) || lit_false(
                    final(self).cnf_formula.assignments@,
                    final(self).cnf_formula.clauses@[c].watched1,
                )
            },
    {
        loop
            invariant
                self.wf(),
                self.sound == old(self).sound,
                self.original == old(self).original,
                self.search_ok(),
                self.same_setup(&*old(self)),
                self.implication_graph.starts() == old(self).implication_graph.starts(),
                old(self).implication_graph.trail().len() <= self.implication_graph.trail().len(),
                self.implication_graph.trail().subrange(
                    0,
                    old(self).implication_graph.trail().len() as int,
                ) == old(self).implication_graph.trail(),
                forall|k: int|
                    old(self).implication_graph.trail().len() <= k < self.implication_graph.trail().len()
                        ==> (#[trigger] self.implication_graph.trail()[k]).reason is Some,
                self.status == old(self).status || self.status is Conflict || self.status is Sat,
                self.status is Sat && self.status != old(self).status ==> forall|i: int|
                    0 <= i < self.cnf_formula.assignments@.len()
                        ==> self.cnf_formula.assignments@[i] is Some,
                self.status is Conflict && self.status != old(self).status ==> {
                    let c = self.status->Conflict_0 as int;
                    clause_falsified(self.cnf_formula.assignments@, self.cnf_formula.clauses@[c].literals@)
                        || lit_false(self.cnf_formula.assignments@, self.cnf_formula.clauses@[c].watched1)
                },
                self.status is Conflict && self.status != old(self).status ==> self.unit_queue@.len() == 0,
            ensures
                self.wf(),
                self.sound == old(self).sound,
                self.original == old(self).original,
                self.search_ok(),
                self.same_setup(&*old(self)),
                self.implication_graph.starts() == old(self).implication_graph.starts(),
                old(self).implication_graph.trail().len() <= self.implication_graph.trail().len(),
                self.implication_graph.trail().subrange(
                    0,
                    old(self).implication_graph.trail().len() as int,
                ) == old(self).implication_graph.trail(),
                forall|k: int|
                    old(self).implication_graph.trail().len() <= k < self.implication_graph.trail().len()
                        ==> (#[trigger] self.implication_graph.trail()[k]).reason is Some,
                !(self.status is Conflict) ==> self.unit_queue@.len() == 0,
                self.status == old(self).status || self.status is Conflict || self.status is Sat,
                self.status is Sat && self.status != old(self).status ==> forall|i: int|
                    0 <= i < self.cnf_formula.assignments@.len()
                        ==> self.cnf_formula.assignments@[i] is Some,
                self.status is Conflict && self.status != old(self).status ==> {
                    let c = self.status->Conflict_0 as int;
                    clause_falsified(self.cnf_formula.assignments@, self.cnf_formula.clauses@[c].literals@)
                        || lit_false(self.cnf_formula.assignments@, self.cnf_formula.clauses@[c].watched1)
                },
            decreases self.cnf_formula.unset_vars, self.unit_queue@.len(),
        {
            let ghost q0 = self.unit_queue@;
            let popped = self.unit_queue.pop_front();
            let unit_clause_id = match popped {
                None => {
                    break;
                },
                Some(id) => id,
            };
            proof {
                if self.sound@ {
                    assert(rest_false(self.cnf_formula.assignments@, self.cnf_formula.clauses@[q0[0] as int]));
                    assert forall|q: int| 0 <= q < self.unit_queue@.len() implies rest_false(
                        self.cnf_formula.assignments@,
                        self.cnf_formula.clauses@[(#[trigger] self.unit_queue@[q]) as int],
                    ) by {
                        assert(self.unit_queue@[q] == q0[q + 1]);
                    }
                }
            }
            if self.status.is_conflict() {
                break;
            }
            let new_assignment = self.find_satisfying_assignment_for_unit_clause(unit_clause_id);
            let old_assignment = self.cnf_formula.assignments[(new_assignment.variable_id - 1) as usize];
            match old_assignment {
                Some(value) => {
                    if value != new_assignment.value {
                        proof {
                            if self.sound@ {
                                let a = self.cnf_formula.assignments@;
                                let cl = self.cnf_formula.clauses@[unit_clause_id as int];
                                assert forall|i: int| 0 <= i < cl.literals@.len() implies lit_false(
                                    a,
                                    #[trigger] cl.literals@[i],
                                ) by {
                                    if cl.literals@[i] != cl.watched1 {
                                    }
                                }
                                reveal(trail_ok);
                                let v = new_assignment.variable_id - 1;
                                assert(a[v as int] is Some);
                                let t = self.implication_graph.trail();
                                let k = choose|k: int| 0 <= k < t.len() && t[k].variable_id == v + 1;
                                let x = t.last().variable_id - 1;
                                lemma_alive_fewer(a, a.update(x, None), self.cnf_formula.clauses@);
                            }
                        }
                        self.status = CdclStatus::Conflict(unit_clause_id);
                        self.unit_queue.clear();
                        break;
                    }
                },
                None => {
                    proof {
                        if self.sound@ {
                            let cl = self.cnf_formula.clauses@[unit_clause_id as int];
                            let lits = cl.literals@;
                            assert(crate::cnf::cnf_formula::non_tautological(cl));
                            assert(crate::cnf::clause::clause_wf(cl, self.cnf_formula.variable_count as int));
                            let kw = choose|k: int| 0 <= k < lits.len() && lits[k] == cl.watched1;
                            assert forall|i: int|
                                0 <= i < lits.len() && var_of(#[trigger] lits[i]) == new_assignment.variable_id implies (lits[i]
                                > 0) == new_assignment.value by {
                                crate::cnf::cnf_formula::lemma_same_var(lits[i], cl.watched1);
                                assert(lits[i] != -lits[kw]);
                            }
                        }
                    }
                    let ghost t0 = self.implication_graph.trail();
                    let ghost unset0 = self.cnf_formula.unset_vars;
                    proof {
                        lemma_count_unset_update(
                            self.cnf_formula.assignments@,
                            new_assignment.variable_id - 1,
                            Some(new_assignment.value),
                        );
                    }
                    self.assign_propagation(new_assignment);
                    proof {
                        let t = self.implication_graph.trail();
                        let n0 = old(self).implication_graph.trail().len() as int;
                        assert(t == t0.push(new_assignment));
                        assert(t.subrange(0, n0) =~= t0.subrange(0, n0));
                        assert forall|k: int| n0 <= k < t.len() implies (#[trigger] t[k]).reason is Some by {
                            if k < t0.len() {
                                assert(t[k] == t0[k]);
                            }
                        }
                    }
                    if self.status.is_conflict() {
                        break;
                    }
                },
            }
        }
    }

    /// Assigns a variable as forced by a unit clause; a conflict clears the unit queue.
    fn assign_propagation(&mut self, assignment: Assignment)
        requires
            old(self).wf(),
            !(old(self).status is Conflict),
            1 <= assignment.variable_id <= old(self).cnf_formula.variable_count,
            old(self).cnf_formula.assignments@[assignment.variable_id - 1] is None,
            assignment.reason is Some,
            assignment.reason->0 < old(self).cnf_formula.clauses@.len(),
            old(self).search_ok(),
            old(self).sound@ ==> forall|i: int|
                0 <= i < old(self).cnf_formula.clauses@[assignment.reason->0 as int].literals@.len() ==> if var_of(
                    #[trigger] old(self).cnf_formula.clauses@[assignment.reason->0 as int].literals@[i],
                ) != assignment.variable_id {
                    lit_false(
                        old(self).cnf_formula.assignments@,
                        old(self).cnf_formula.clauses@[assignment.reason->0 as int].literals@[i],
                    )
                } else {
                    (old(self).cnf_formula.clauses@[assignment.reason->0 as int].literals@[i] > 0) == assignment.value
                },
        ensures
            final(self).wf(),
            final(self).sound == old(self).sound,
            final(self).original == old(self).original,
            final(self).search_ok(),
            final(self).same_setup(&*old(self)),
            final(self).cnf_formula.assignments@ == old(self).cnf_formula.assignments@.update(
                assignment.variable_id - 1,
                Some(assignment.value),
            ),
            final(self).cnf_formula.unset_vars == count_unset(final(self).cnf_formula.assignments@),
            final(self).implication_graph.trail() == old(self).implication_graph.trail().push(assignment),
            final(self).implication_graph.starts() == old(self).implication_graph.starts(),
            final(self).status == old(self).status || final(self).status is Conflict
                || final(self).status is Sat,
            final(self).status is Sat && final(self).status != old(self).status ==> forall|i: int|
                0 <= i < final(self).cnf_formula.assignments@.len()
                    ==> final(self).cnf_formula.assignments@[i] is Some,
            final(self).status is Conflict ==> final(self).unit_queue@.len() == 0
                && clause_falsified(
                final(self).cnf_formula.assignments@,
                final(self).cnf_formula.clauses@[final(self).status->Conflict_0 as int].literals@,
            ),
    {
        let assignment_result = self.apply_and_record_forced(assignment);
        match assignment_result {
            AssignmentResult::Conflict(clause_id) => {
                self.unit_queue.clear();
                self.status = CdclStatus::Conflict(clause_id);
                assert(self.status->Conflict_0 == clause_id);
            },
            AssignmentResult::Success => {
                if self.cnf_formula.all_assigned() {
                    self.status = CdclStatus::Sat;
                }
            },
        }
    }

    /// Finds the satisfying assignment for a unit clause: its first watched literal made true,
    /// with the clause as the reason.
    fn find_satisfying_assignment_for_unit_clause(&self, unit_clause_id: ClauseID) -> (r: Assignment)
        requires
            self.wf(),
            unit_clause_id < self.cnf_formula.clauses@.len(),
        ensures
            r.variable_id == var_of(self.cnf_formula.clauses@[unit_clause_id as int].watched1),
            1 <= r.variable_id <= self.cnf_formula.variable_count,
            r.value == (self.cnf_formula.clauses@[unit_clause_id as int].watched1 > 0),
            r.reason == Some(unit_clause_id),
    {
        proof {
            lemma_watched_in_range(&self.cnf_formula, unit_clause_id as int);
        }
        let w1 = self.cnf_formula.clauses[unit_clause_id].watched1;
        Assignment::new(lit_var(w1), w1 > 0, Some(unit_clause_id))
    }
}

} // verus!
