use crate::cnf::clause::ClauseID;
use crate::cnf::cnf_formula::{same_literals, count_unset, lemma_count_unset_update, lemma_watched_in_range};
use crate::cnf::literals::{lit_var, var_of};
use crate::dpll::assignment::Assignment;
use crate::dpll::dpll::{lemma_alive_fewer, Dpll, DpllStatus};
use crate::dpll::refutation::{lemma_push_implied, lemma_unit_implied};
use crate::cdcl::cdcl::{clause_lits, rest_false};
use crate::cnf::literals::{clause_falsified, clause_satisfied, lit_true, lits_in_range};
use vstd::prelude::*;

verus! {

/// Each clause of `q0` is satisfied under `a`, or is still in the queue `q`.
pub open spec fn queued_done(
    a: Seq<Option<bool>>,
    cls: Seq<crate::cnf::clause::Clause>,
    q0: Seq<ClauseID>,
    q: Seq<ClauseID>,
) -> bool {
    forall|k: int|
        0 <= k < q0.len() ==> clause_satisfied(a, cls[(#[trigger] q0[k]) as int].literals@) || q.contains(q0[k])
}

/// Every literal of the clause is the same one.
pub open spec fn single_lit(lits: Seq<i32>) -> bool {
    lits.len() > 0 && forall|i: int| 0 <= i < lits.len() ==> #[trigger] lits[i] == lits[0]
}

/// The trail entry makes true the literal of some clause of `cls` whose literals are all the same.
pub open spec fn forced_by_unit_clause(e: Assignment, cls: Seq<crate::cnf::clause::Clause>) -> bool {
    exists|c: int|
        0 <= c < cls.len() && single_lit(#[trigger] cls[c].literals@) && e.variable_id == var_of(
            cls[c].literals@[0],
        ) && e.value == (cls[c].literals@[0] > 0)
}

/// Starting from an empty trail with every queued clause made of one literal.
pub open spec fn starts_from_units(t: Seq<Assignment>, q: Seq<ClauseID>, cls: Seq<crate::cnf::clause::Clause>) -> bool {
    t.len() == 0 && forall|p: int| 0 <= p < q.len() ==> single_lit(cls[(#[trigger] q[p]) as int].literals@)
}

/// A satisfied clause stays satisfied when an unassigned variable gets a value.
pub proof fn lemma_satisfied_persists(a: Seq<Option<bool>>, lits: Seq<i32>, x: int, v: bool)
    requires
        clause_satisfied(a, lits),
        0 <= x < a.len(),
        a[x] is None,
        lits_in_range(lits, a.len() as int),
    ensures
        clause_satisfied(a.update(x, Some(v)), lits),
{
    let i = choose|i: int| 0 <= i < lits.len() && lit_true(a, #[trigger] lits[i]);
    assert(lit_true(a.update(x, Some(v)), lits[i]));
}

impl Dpll {
    /// Execute unit propagation. As long as there are unit clauses present in the unit queue,
    /// satisfy them. If this creates any new unit clauses, add them to the queue.
    ///
    /// A queued clause whose first watched literal is already true is passed over; one whose
    /// first watched literal is already false is a conflict, and propagation stops there.
    ///
    /// # Returns
    /// The number of unit clauses taken from the queue.
    pub(crate) fn propagate_unit_clauses(&mut self) -> (units: usize)
        requires
            old(self).wf(),
            old(self).status != DpllStatus::Unsat,
            old(self).sound@ ==> old(self).level_open() || old(self).nothing_assigned(),
            old(self).refutation_ok(),
        ensures
            final(self).refutation_ok(),
            old(self).unit_queue@.len() == 0 ==> final(self).status == old(self).status,
            final(self).wf(),
            final(self).heuristic == old(self).heuristic,
            same_literals(old(self).cnf_formula.clauses@, final(self).cnf_formula.clauses@),
            final(self).sound == old(self).sound,
            final(self).cnf_formula.variable_count == old(self).cnf_formula.variable_count,
            final(self).assignment_stack.starts() == old(self).assignment_stack.starts(),
            old(self).assignment_stack.trail().len() <= final(self).assignment_stack.trail().len(),
            final(self).assignment_stack.trail().subrange(
                0,
                old(self).assignment_stack.trail().len() as int,
            ) == old(self).assignment_stack.trail(),
            final(self).status == old(self).status || final(self).status == DpllStatus::Conflict
                || final(self).status == DpllStatus::Sat,
            final(self).status != DpllStatus::Conflict ==> final(self).unit_queue@.len() == 0,
            final(self).status != DpllStatus::Conflict ==> forall|k: int|
                0 <= k < old(self).unit_queue@.len() ==> clause_satisfied(
                    final(self).cnf_formula.assignments@,
                    final(self).cnf_formula.clauses@[(#[trigger] old(self).unit_queue@[k]) as int].literals@,
                ),
            starts_from_units(
                old(self).assignment_stack.trail(),
                old(self).unit_queue@,
                old(self).cnf_formula.clauses@,
            ) && final(self).assignment_stack.trail().len() > 0 ==> forced_by_unit_clause(
                final(self).assignment_stack.trail()[0],
                old(self).cnf_formula.clauses@,
            ),
    {
        let mut units: usize = 0;
        loop
            invariant
                self.wf(),
                self.status != DpllStatus::Unsat,
                self.heuristic == old(self).heuristic,
                same_literals(old(self).cnf_formula.clauses@, self.cnf_formula.clauses@),
                self.sound == old(self).sound,
                self.cnf_formula.variable_count == old(self).cnf_formula.variable_count,
                self.assignment_stack.starts() == old(self).assignment_stack.starts(),
                old(self).assignment_stack.trail().len() <= self.assignment_stack.trail().len(),
                self.assignment_stack.trail().subrange(
                    0,
                    old(self).assignment_stack.trail().len() as int,
                ) == old(self).assignment_stack.trail(),
                self.status == old(self).status || self.status == DpllStatus::Conflict
                    || self.status == DpllStatus::Sat,
                self.sound == old(self).sound,
                self.sound@ ==> self.level_open() || self.nothing_assigned(),
                self.refutation_ok(),
                old(self).unit_queue@.len() == 0 ==> self.status == old(self).status && self.unit_queue@.len() == 0,
                self.status != DpllStatus::Conflict ==> queued_done(
                    self.cnf_formula.assignments@,
                    self.cnf_formula.clauses@,
                    old(self).unit_queue@,
                    self.unit_queue@,
                ),
                forall|k: int|
                    0 <= k < old(self).unit_queue@.len() ==> (#[trigger] old(self).unit_queue@[k])
                        < old(self).cnf_formula.clauses@.len(),
                starts_from_units(
                    old(self).assignment_stack.trail(),
                    old(self).unit_queue@,
                    old(self).cnf_formula.clauses@,
                ) ==> {
                    &&& self.assignment_stack.trail().len() == 0 ==> forall|p: int|
                        0 <= p < self.unit_queue@.len() ==> single_lit(
                            old(self).cnf_formula.clauses@[(#[trigger] self.unit_queue@[p]) as int].literals@,
                        )
                    &&& self.assignment_stack.trail().len() > 0 ==> forced_by_unit_clause(
                        self.assignment_stack.trail()[0],
                        old(self).cnf_formula.clauses@,
                    )
                },
            ensures
                self.status != DpllStatus::Conflict ==> queued_done(
                    self.cnf_formula.assignments@,
                    self.cnf_formula.clauses@,
                    old(self).unit_queue@,
                    self.unit_queue@,
                ),
                self.refutation_ok(),
                old(self).unit_queue@.len() == 0 ==> self.status == old(self).status,
                self.wf(),
                self.heuristic == old(self).heuristic,
                same_literals(old(self).cnf_formula.clauses@, self.cnf_formula.clauses@),
                self.sound == old(self).sound,
                self.cnf_formula.variable_count == old(self).cnf_formula.variable_count,
                self.assignment_stack.starts() == old(self).assignment_stack.starts(),
                old(self).assignment_stack.trail().len() <= self.assignment_stack.trail().len(),
                self.assignment_stack.trail().subrange(
                    0,
                    old(self).assignment_stack.trail().len() as int,
                ) == old(self).assignment_stack.trail(),
                self.status == old(self).status || self.status == DpllStatus::Conflict
                    || self.status == DpllStatus::Sat,
                self.status != DpllStatus::Conflict ==> self.unit_queue@.len() == 0,
                starts_from_units(
                    old(self).assignment_stack.trail(),
                    old(self).unit_queue@,
                    old(self).cnf_formula.clauses@,
                ) && self.assignment_stack.trail().len() > 0 ==> forced_by_unit_clause(
                    self.assignment_stack.trail()[0],
                    old(self).cnf_formula.clauses@,
                ),
            decreases count_unset(self.cnf_formula.assignments@), self.unit_queue@.len(),
        {
            let ghost q0 = self.unit_queue@;
            let unit_clause_id = match self.unit_queue.pop_front() {
                Some(id) => id,
                None => break,
            };
            proof {
                if self.sound@ && self.status != DpllStatus::Conflict {
                    assert(rest_false(self.cnf_formula.assignments@, self.cnf_formula.clauses@[q0[0] as int]));
                    assert forall|q: int| 0 <= q < self.unit_queue@.len() implies rest_false(
                        self.cnf_formula.assignments@,
                        self.cnf_formula.clauses@[(#[trigger] self.unit_queue@[q]) as int],
                    ) by {
                        assert(self.unit_queue@[q] == q0[q + 1]);
                    }
                }
            }
            if self.status == DpllStatus::Conflict {
                break;
            }
            let ghost q1 = self.unit_queue@;
            proof {
                assert(q1 == q0.drop_first());
                if starts_from_units(old(self).assignment_stack.trail(), old(self).unit_queue@, old(self).cnf_formula.clauses@)
                    && self.assignment_stack.trail().len() == 0 {
                    assert(q0[0] == unit_clause_id);
                    assert(single_lit(old(self).cnf_formula.clauses@[unit_clause_id as int].literals@));
                    assert forall|p: int| 0 <= p < q1.len() implies single_lit(
                        old(self).cnf_formula.clauses@[(#[trigger] q1[p]) as int].literals@,
                    ) by {
                        assert(q1[p] == q0[p + 1]);
                    }
                }
                assert forall|e: ClauseID| q0.contains(e) && e != unit_clause_id implies q1.contains(e) by {
                    let j = choose|j: int| 0 <= j < q0.len() && q0[j] == e;
                    assert(j != 0);
                    assert(q1[j - 1] == e);
                }
                assert(crate::cnf::clause::clause_wf(
                    self.cnf_formula.clauses@[unit_clause_id as int],
                    self.cnf_formula.variable_count as int,
                ));
            }
            units = units.saturating_add(1);
            let new_assignment = self.find_satisfying_assignment_for_unit_clause(unit_clause_id);
            let idx = (new_assignment.variable_id - 1) as usize;
            match self.cnf_formula.assignments[idx] {
                Some(value) => {
                    if value != new_assignment.value {
                        proof {
                            if self.sound@ {
                                let a = self.cnf_formula.assignments@;
                                assert(!self.nothing_assigned());
                                let x = self.assignment_stack.trail().last().variable_id - 1;
                                lemma_alive_fewer(a, a.update(x, None), self.cnf_formula.clauses@);
                                assert(clause_falsified(a, self.cnf_formula.clauses@[unit_clause_id as int].literals@));
                            }
                        }
                        self.status = DpllStatus::Conflict;
                        break;
                    }
                    proof {
                        let a = self.cnf_formula.assignments@;
                        let cl = self.cnf_formula.clauses@[unit_clause_id as int];
                        let kw = choose|k: int| 0 <= k < cl.literals@.len() && cl.literals@[k] == cl.watched1;
                        assert(lit_true(a, cl.literals@[kw]));
                        assert(clause_satisfied(a, cl.literals@));
                        assert(queued_done(a, self.cnf_formula.clauses@, old(self).unit_queue@, self.unit_queue@));
                    }
                },
                None => {
                    proof {
                        if self.sound@ {
                            let t = self.assignment_stack.trail();
                            let cls = self.cnf_formula.clauses@;
                            let cs = clause_lits(cls);
                            let n = self.cnf_formula.variable_count as nat;
                            let cl = cls[unit_clause_id as int];
                            assert(cs[unit_clause_id as int] == cl.literals@);
                            assert(crate::cnf::clause::clause_wf(cl, n as int));
                            lemma_unit_implied(
                                t,
                                self.assignment_stack.starts(),
                                cs,
                                n,
                                self.cnf_formula.assignments@,
                                cl.literals@,
                                cl.watched1,
                                new_assignment,
                            );
                            lemma_push_implied(t, self.assignment_stack.starts(), cs, n, new_assignment);
                        }
                    }
                    let ghost a0 = self.cnf_formula.assignments@;
                    let ghost t0 = self.assignment_stack.trail();
                    let ghost cls0 = self.cnf_formula.clauses@;
                    self.assign(new_assignment);
                    proof {
                        if self.status != DpllStatus::Conflict {
                            let a = self.cnf_formula.assignments@;
                            let cls = self.cnf_formula.clauses@;
                            let q = self.unit_queue@;
                            let cl = cls[unit_clause_id as int];
                            assert(cl.literals@ == cls0[unit_clause_id as int].literals@);
                            assert(cl.literals@.contains(cls0[unit_clause_id as int].watched1));
                            let kw = choose|k: int| 0 <= k < cl.literals@.len() && cl.literals@[k] == cls0[unit_clause_id as int].watched1;
                            assert(lit_true(a, cl.literals@[kw]));
                            assert forall|k: int| 0 <= k < old(self).unit_queue@.len() implies clause_satisfied(
                                a,
                                cls[(#[trigger] old(self).unit_queue@[k]) as int].literals@,
                            ) || q.contains(old(self).unit_queue@[k]) by {
                                let e = old(self).unit_queue@[k];
                                assert(e < cls0.len());
                                assert(cls[e as int].literals@ == cls0[e as int].literals@);
                                if e == unit_clause_id {
                                } else if clause_satisfied(a0, cls0[e as int].literals@) {
                                    assert(crate::cnf::clause::clause_wf(cls0[e as int], self.cnf_formula.variable_count as int));
                                    lemma_satisfied_persists(a0, cls0[e as int].literals@, idx as int, new_assignment.value);
                                } else {
                                    assert(q0.contains(e));
                                    assert(q1.contains(e));
                                    let j = choose|j: int| 0 <= j < q1.len() && q1[j] == e;
                                    assert(q.subrange(0, q1.len() as int)[j] == q1[j]);
                                    assert(q[j] == e);
                                }
                            }
                        }
                        if starts_from_units(old(self).assignment_stack.trail(), old(self).unit_queue@, old(self).cnf_formula.clauses@) {
                            if t0.len() == 0 {
                                let lits = old(self).cnf_formula.clauses@[unit_clause_id as int].literals@;
                                assert(cls0[unit_clause_id as int].literals@ == lits);
                                assert(cls0[unit_clause_id as int].literals@.contains(cls0[unit_clause_id as int].watched1));
                                let kw = choose|k: int| 0 <= k < lits.len() && lits[k] == cls0[unit_clause_id as int].watched1;
                                assert(lits[kw] == lits[0]);
                                assert(self.assignment_stack.trail()[0] == new_assignment);
                            } else {
                                assert(self.assignment_stack.trail()[0] == t0[0]);
                            }
                        }
                        lemma_count_unset_update(a0, idx as int, Some(new_assignment.value));
                        assert(self.assignment_stack.trail().subrange(
                            0,
                            old(self).assignment_stack.trail().len() as int,
                        ) =~= old(self).assignment_stack.trail()) by {
                            assert forall|k: int|
                                0 <= k < old(self).assignment_stack.trail().len() implies self.assignment_stack.trail()[k]
                                == old(self).assignment_stack.trail()[k] by {
                                assert(self.assignment_stack.trail()[k] == t0[k]);
                                assert(t0.subrange(0, old(self).assignment_stack.trail().len() as int)[k] == t0[k]);
                            }
                        }
                    }
                },
            }
        }
        units
    }

    /// Finds the satisfying assignment for a unit clause: its first watched literal made true.
    fn find_satisfying_assignment_for_unit_clause(&self, unit_clause_id: ClauseID) -> (r: Assignment)
        requires
            self.wf(),
            unit_clause_id < self.cnf_formula.clauses@.len(),
        ensures
            r.variable_id == var_of(self.cnf_formula.clauses@[unit_clause_id as int].watched1),
            1 <= r.variable_id <= self.cnf_formula.variable_count,
            r.value == (self.cnf_formula.clauses@[unit_clause_id as int].watched1 > 0),
    {
        proof {
            lemma_watched_in_range(&self.cnf_formula, unit_clause_id as int);
        }
        let w1 = self.cnf_formula.clauses[unit_clause_id].watched1;
        Assignment::new(lit_var(w1), w1 > 0)
    }
}

} // verus!
