use crate::cnf::cnf_formula::CnfFormula;
use crate::dpll::assignment::Assignment;
use vstd::prelude::*;

verus! {

/// The assignment stack
///
/// # Fields
/// * `trail` - A trail of past assignments
/// * `decision_level_start` - A list of indices in the trail at which new decision level start
#[derive(Debug)]
pub struct AssignmentStack {
    trail: Vec<Assignment>,
    decision_level_start: Vec<i32>,
}

/// `a` with every variable that an assignment of `t` names unassigned.
pub open spec fn unassigned_by(a: Seq<Option<bool>>, t: Seq<Assignment>) -> Seq<Option<bool>> {
    Seq::new(
        a.len(),
        |i: int|
            if exists|k: int| 0 <= k < t.len() && t[k].variable_id == i + 1 {
                None
            } else {
                a[i]
            },
    )
}

/// How many assignments stay on the trail when the decision level that starts at `start` is
/// undone: those up to and including index `start`.
pub open spec fn kept_on_undo(start: int, len: int) -> int {
    if start + 1 < 0 {
        0
    } else if start + 1 < len {
        start + 1
    } else {
        len
    }
}

impl AssignmentStack {
    /// The assignments on the stack, oldest first.
    pub closed spec fn trail(&self) -> Seq<Assignment> {
        self.trail@
    }

    /// The recorded starts of decision levels.
    pub closed spec fn starts(&self) -> Seq<i32> {
        self.decision_level_start@
    }

    pub fn new() -> (r: Self)
        ensures
            r.trail().len() == 0,
            r.starts() == seq![-1i32, 0i32],
    {
        let r = Self { trail: Vec::new(), decision_level_start: vec![-1, 0] };
        assert(r.starts() =~= seq![-1i32, 0i32]);
        r
    }

    /// Starts a new decision level
    pub fn start_decision_level(&mut self)
        ensures
            final(self).trail() == old(self).trail(),
            final(self).starts() == old(self).starts().push(old(self).trail().len() as i32),
    {
        self.decision_level_start.push(self.trail.len() as i32);
    }

    /// Pushes a new assignment onto the stack
    pub fn push_assignment(&mut self, assignment: Assignment)
        ensures
            final(self).trail() == old(self).trail().push(assignment),
            final(self).starts() == old(self).starts(),
    {
        self.trail.push(assignment);
    }

    /// Undos all assignments at the current decision level excluding the last one
    pub fn undo_assignment_current_decision_level(&mut self, cnf_formula: &mut CnfFormula)
        requires
            old(self).starts().len() > 0,
            -1 <= old(self).starts().last() < i32::MAX,
            old(self).trail().len() <= i32::MAX,
            old(cnf_formula).wf(),
            forall|k: int|
                0 <= k < old(self).trail().len() ==> 1 <= (#[trigger] old(self).trail()[k]).variable_id
                    <= old(cnf_formula).variable_count,
        ensures
            final(self).starts() == old(self).starts().drop_last(),
            final(self).trail() == old(self).trail().take(
                kept_on_undo(old(self).starts().last() as int, old(self).trail().len() as int),
            ),
            final(cnf_formula).wf(),
            final(cnf_formula).assignments@ == unassigned_by(
                old(cnf_formula).assignments@,
                old(self).trail().skip(
                    kept_on_undo(old(self).starts().last() as int, old(self).trail().len() as int),
                ),
            ),
            final(cnf_formula).clauses == old(cnf_formula).clauses,
            final(cnf_formula).variables == old(cnf_formula).variables,
            final(cnf_formula).variable_count == old(cnf_formula).variable_count,
            final(cnf_formula).free_indices == old(cnf_formula).free_indices,
            final(cnf_formula).current_id == old(cnf_formula).current_id,
            final(cnf_formula).learned_clause_start == old(cnf_formula).learned_clause_start,
    {
        let current_decision_level_start = self.decision_level_start.pop().unwrap();
        let ghost t0 = self.trail@;
        let ghost a0 = cnf_formula.assignments@;
        let ghost keep = kept_on_undo(current_decision_level_start as int, t0.len() as int);
        assert(unassigned_by(a0, t0.skip(t0.len() as int)) =~= a0);
        while current_decision_level_start + 1 < self.trail.len() as i32
            invariant
                -1 <= current_decision_level_start < i32::MAX,
                keep == kept_on_undo(current_decision_level_start as int, t0.len() as int),
                t0.len() <= i32::MAX,
                keep <= self.trail@.len() <= t0.len(),
                self.trail@ == t0.take(self.trail@.len() as int),
                self.decision_level_start@ == old(self).decision_level_start@.drop_last(),
                cnf_formula.wf(),
                cnf_formula.assignments@ == unassigned_by(a0, t0.skip(self.trail@.len() as int)),
                cnf_formula.clauses == old(cnf_formula).clauses,
                cnf_formula.variables == old(cnf_formula).variables,
                cnf_formula.variable_count == old(cnf_formula).variable_count,
                cnf_formula.free_indices == old(cnf_formula).free_indices,
                cnf_formula.current_id == old(cnf_formula).current_id,
                cnf_formula.learned_clause_start == old(cnf_formula).learned_clause_start,
                forall|k: int|
                    0 <= k < t0.len() ==> 1 <= (#[trigger] t0[k]).variable_id
                        <= cnf_formula.variable_count,
            decreases self.trail@.len(),
        {
            let ghost len = self.trail@.len();
            assert(self.trail@.len() as i32 == self.trail@.len());
            assert(len > 0);
            let a = self.trail.pop().unwrap();
            assert(a == t0[len - 1]);
            cnf_formula.undo_assignment(
                &crate::cdcl::assignment::Assignment::new(a.variable_id, a.value, None),
            );
            proof {
                assert(self.trail@ =~= t0.take(len - 1));
                assert(cnf_formula.assignments@ =~= unassigned_by(a0, t0.skip(len - 1))) by {
                    assert forall|i: int| 0 <= i < a0.len() implies cnf_formula.assignments@[i]
                        == unassigned_by(a0, t0.skip(len - 1))[i] by {
                        let s1 = t0.skip(len - 1);
                        let s2 = t0.skip(len as int);
                        if i == a.variable_id - 1 {
                            assert(s1[0] == a);
                        } else {
                            if exists|k: int| 0 <= k < s1.len() && s1[k].variable_id == i + 1 {
                                let k = choose|k: int| 0 <= k < s1.len() && s1[k].variable_id == i + 1;
                                assert(k > 0);
                                assert(s2[k - 1] == s1[k]);
                            }
                            if exists|k: int| 0 <= k < s2.len() && s2[k].variable_id == i + 1 {
                                let k = choose|k: int| 0 <= k < s2.len() && s2[k].variable_id == i + 1;
                                assert(s1[k + 1] == s2[k]);
                            }
                        }
                    }
                }
            }
        }
        assert(self.trail@.len() == keep);
    }

    /// Undos only the last assignment
    pub fn undo_last_assignment(&mut self, cnf_formula: &mut CnfFormula) -> (r: Assignment)
        requires
            old(self).trail().len() > 0,
            old(cnf_formula).wf(),
            1 <= old(self).trail().last().variable_id <= old(cnf_formula).variable_count,
        ensures
            r == old(self).trail().last(),
            final(self).trail() == old(self).trail().drop_last(),
            final(self).starts() == old(self).starts(),
            final(cnf_formula).wf(),
            final(cnf_formula).assignments@ == old(cnf_formula).assignments@.update(
                r.variable_id - 1,
                None,
            ),
            final(cnf_formula).clauses == old(cnf_formula).clauses,
            final(cnf_formula).variables == old(cnf_formula).variables,
            final(cnf_formula).variable_count == old(cnf_formula).variable_count,
            final(cnf_formula).free_indices == old(cnf_formula).free_indices,
            final(cnf_formula).current_id == old(cnf_formula).current_id,
            final(cnf_formula).learned_clause_start == old(cnf_formula).learned_clause_start,
    {
        let assignment = self.trail.pop().unwrap();
        cnf_formula.undo_assignment(
            &crate::cdcl::assignment::Assignment::new(assignment.variable_id, assignment.value, None),
        );
        assignment
    }

    pub fn is_empty(&self) -> (r: bool)
        ensures
            r == (self.trail().len() == 0),
    {
        self.trail.is_empty()
    }

    /// The length of the trail.
    pub fn get_decision_level(&self) -> (r: i32)
        ensures
            r == self.trail().len() as i32,
    {
        self.trail.len() as i32
    }
}

} // verus!
