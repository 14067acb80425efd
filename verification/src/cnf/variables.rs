use crate::cnf::variable::Variable;
use vstd::prelude::*;

verus! {

/// A list of variables; variable `v` is stored at index `v - 1`.
#[derive(Clone, Debug, PartialEq)]
pub struct Variables(pub Vec<Variable>);

impl Variables {
    /// `variable_count` fresh variables, watched by no clause and occurring nowhere.
    pub fn new(variable_count: usize) -> (r: Variables)
        ensures
            r.0@.len() == variable_count,
            forall|i: int|
                0 <= i < variable_count ==> (#[trigger] r.0@[i]).positive_watched_occurrences@.len()
                    == 0 && r.0@[i].negative_watched_occurrences@.len() == 0
                    && r.0@[i].positive_occurrences_count == 0
                    && r.0@[i].negative_occurrences_count == 0,
    {
        let mut v: Vec<Variable> = Vec::new();
        let mut i: usize = 0;
        while i < variable_count
            invariant
                i <= variable_count,
                v@.len() == i,
                forall|k: int|
                    0 <= k < i ==> (#[trigger] v@[k]).positive_watched_occurrences@.len() == 0
                        && v@[k].negative_watched_occurrences@.len() == 0
                        && v@[k].positive_occurrences_count == 0
                        && v@[k].negative_occurrences_count == 0,
            decreases variable_count - i,
        {
            v.push(Variable::new());
            i = i + 1;
        }
        Variables(v)
    }

    pub(crate) fn get(&self, variable_id: usize) -> (r: &Variable)
        requires
            1 <= variable_id <= self.0@.len(),
        ensures
            *r == self.0@[variable_id - 1],
    {
        &self.0[variable_id - 1]
    }

    pub(crate) fn get_mut(&mut self, variable_id: usize) -> (r: &mut Variable)
        requires
            1 <= variable_id <= old(self).0@.len(),
        ensures
            *r == old(self).0@[variable_id - 1],
            final(self).0@ == old(self).0@.update(variable_id - 1, *final(r)),
    {
        &mut self.0[variable_id - 1]
    }

    pub(crate) fn len(&self) -> (r: usize)
        ensures
            r == self.0@.len(),
    {
        self.0.len()
    }
}

} // verus!
