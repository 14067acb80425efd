use crate::cnf::cnf_formula::CnfFormula;
use crate::cnf::literals::{lit_var, var_of};
use crate::dpll::assignment::Assignment;
use vstd::prelude::*;

verus! {

/// The static Jeroslow-Wang rule: the variables in a fixed order of decreasing weight, walked
/// from where the last branching at a lower decision level stopped. The order itself is
/// computed from fractional weights by the caller and handed over with `set_order`.
#[derive(Debug)]
pub struct StaticJW {
    order: Vec<i32>,
    computed: bool,
    assignments: Vec<(u32, i32)>,
}

impl StaticJW {
    /// The order of the variables, as signed literals.
    pub closed spec fn order(&self) -> Seq<i32> {
        self.order@
    }

    /// Whether the order is known.
    pub closed spec fn computed(&self) -> bool {
        self.computed
    }

    /// The positions in the order of past choices, with their decision levels.
    pub closed spec fn choices(&self) -> Seq<(u32, i32)> {
        self.assignments@
    }

    pub fn new() -> (r: Self)
        ensures
            r.order().len() == 0,
            !r.computed(),
            r.choices().len() == 0,
    {
        Self { order: Vec::new(), computed: false, assignments: Vec::new() }
    }

    pub fn is_computed(&self) -> (r: bool)
        ensures
            r == self.computed(),
    {
        self.computed
    }

    /// Installs the order of the variables.
    pub fn set_order(&mut self, order: Vec<i32>)
        ensures
            final(self).order() == order@,
            final(self).computed(),
            final(self).choices() == old(self).choices(),
    {
        self.order = order;
        self.computed = true;
    }

    /// The next choice along the order: past choices made deeper than `decision_level` are
    /// forgotten; without any, the first literal of the order; else the first literal at or
    /// after the position of the last choice whose variable is unassigned.
    pub fn next_from_order(&mut self, cnf_formula: &CnfFormula, decision_level: i32) -> (r: Assignment)
        requires
            old(self).computed(),
            old(self).order().len() > 0,
            old(self).order().len() <= u32::MAX,
            forall|k: int|
                0 <= k < old(self).order().len() ==> 1 <= var_of(#[trigger] old(self).order()[k])
                    <= cnf_formula.assignments@.len() && old(self).order()[k] != i32::MIN,
            forall|k: int|
                0 <= k < old(self).choices().len() ==> (#[trigger] old(self).choices()[k]).0
                    < old(self).order().len(),
            forall|k: int|
                0 <= k < old(self).choices().len() && (#[trigger] old(self).choices()[k]).1 <= decision_level
                    ==> exists|j: int|
                    old(self).choices()[k].0 <= j < old(self).order().len()
                        && cnf_formula.assignments@[var_of(old(self).order()[j]) - 1] is None,
        ensures
            final(self).order() == old(self).order(),
            final(self).computed(),
            exists|j: int|
                0 <= j < old(self).order().len() && r.variable_id == var_of(
                    #[trigger] old(self).order()[j],
                ) && r.value == (old(self).order()[j] > 0),
            forall|k: int|
                0 <= k < final(self).choices().len() ==> (#[trigger] final(self).choices()[k]).0
                    < final(self).order().len(),
    {
        let ghost c0 = self.assignments@;
        assert forall|k: int| 0 <= k < c0.len() implies (#[trigger] c0[k]).0 < self.order@.len() by {
            assert(old(self).choices()[k] == c0[k]);
        }
        while self.assignments.len() > 0 && self.assignments[self.assignments.len() - 1].1 > decision_level
            invariant
                self.order@ == old(self).order@,
                self.computed,
                self.assignments@.len() <= c0.len(),
                self.assignments@ == c0.take(self.assignments@.len() as int),
                forall|k: int|
                    0 <= k < c0.len() ==> (#[trigger] c0[k]).0 < self.order@.len(),
                c0 == old(self).assignments@,
            decreases self.assignments@.len(),
        {
            self.assignments.pop();
            assert(self.assignments@ =~= c0.take(self.assignments@.len() as int));
        }
        if self.assignments.len() == 0 {
            self.assignments.push((0, decision_level));
            let lit = self.order[0];
            assert(old(self).order()[0] == lit);
            return Assignment { variable_id: lit_var(lit), value: lit > 0 };
        }
        let last = self.assignments.len() - 1;
        let mut index = self.assignments[last].0;
        assert(self.assignments@[last as int] == c0[last as int]);
        assert(old(self).choices()[last as int] == c0[last as int]);
        assert(c0[last as int].1 <= decision_level);
        let ghost start = index;
        while (index as usize) < self.order.len()
            invariant
                self.order@ == old(self).order@,
                self.computed,
                start <= index,
                index as int <= self.order@.len(),
                self.order@.len() <= u32::MAX,
                forall|j: int| start <= j < index ==> cnf_formula.assignments@[var_of(#[trigger] self.order@[j]) - 1] is Some,
                exists|j: int| start <= j < self.order@.len() && cnf_formula.assignments@[var_of(self.order@[j]) - 1] is None,
                forall|k: int|
                    0 <= k < self.order@.len() ==> 1 <= var_of(#[trigger] self.order@[k])
                        <= cnf_formula.assignments@.len() && self.order@[k] != i32::MIN,
                forall|k: int|
                    0 <= k < self.assignments@.len() ==> (#[trigger] self.assignments@[k]).0
                        < self.order@.len(),
            decreases self.order@.len() - index,
        {
            let v = self.order[index as usize];
            if cnf_formula.assignments[(lit_var(v) - 1) as usize].is_none() {
                assert(old(self).order()[index as int] == v);
                self.assignments.push((index, decision_level));
                return Assignment { variable_id: lit_var(v), value: v > 0 };
            }
            index = index + 1;
        }
        proof {
            let j = choose|j: int| start <= j < self.order@.len() && cnf_formula.assignments@[var_of(self.order@[j]) - 1] is None;
            assert(cnf_formula.assignments@[var_of(self.order@[j]) - 1] is Some);
        }
        Assignment { variable_id: 1, value: true }
    }
}

} // verus!
