use crate::cnf::clause::ClauseID;
use crate::cnf::literals::VariableId;
use vstd::prelude::*;

verus! {

/// The variable implementation
///
/// # Fields
/// * `positive_watched_occurrences` - The IDs of the clauses that watch the positive literal of this variable
/// * `negative_watched_occurrences` - The IDs of the clauses that watch the negative literal of this variable
/// * `positive_occurrences_count` - In how many clauses the variable occurs positively
/// * `negative_occurrences_count` - In how many clauses the variable occurs negatively
#[derive(Debug, PartialEq, Clone)]
pub struct Variable {
    pub positive_watched_occurrences: Vec<ClauseID>,
    pub negative_watched_occurrences: Vec<ClauseID>,
    pub positive_occurrences_count: usize,
    pub negative_occurrences_count: usize,
}

impl Variable {
    pub fn new() -> (r: Variable)
        ensures
            r.positive_watched_occurrences@ == Seq::<ClauseID>::empty(),
            r.negative_watched_occurrences@ == Seq::<ClauseID>::empty(),
            r.positive_occurrences_count == 0,
            r.negative_occurrences_count == 0,
    {
        Variable {
            positive_watched_occurrences: Vec::new(),
            negative_watched_occurrences: Vec::new(),
            positive_occurrences_count: 0,
            negative_occurrences_count: 0,
        }
    }

    /// Chooses the appropriate clause slices depending on an assignment value.
    ///
    /// # Returns
    /// A tuple `(satisfied_clause_ids, unsatisfied_clause_ids)`: the clauses watching the literal
    /// that the value makes true, and those watching the literal that it makes false.
    pub fn associated_clauses(&self, value: bool) -> (r: (&[ClauseID], &[ClauseID]))
        ensures
            value ==> r.0@ == self.positive_watched_occurrences@ && r.1@
                == self.negative_watched_occurrences@,
            !value ==> r.0@ == self.negative_watched_occurrences@ && r.1@
                == self.positive_watched_occurrences@,
    {
        if value {
            (
                self.positive_watched_occurrences.as_slice(),
                self.negative_watched_occurrences.as_slice(),
            )
        } else {
            (
                self.negative_watched_occurrences.as_slice(),
                self.positive_watched_occurrences.as_slice(),
            )
        }
    }
}

/// The clauses that watch the literal `l`.
pub open spec fn watch_list(vars: Seq<Variable>, l: int) -> Seq<ClauseID> {
    if l > 0 {
        vars[l - 1].positive_watched_occurrences@
    } else {
        vars[-l - 1].negative_watched_occurrences@
    }
}

/// The IDs `1..=n` in decimal, one space between two of them.
pub open spec fn ids_text(n: nat) -> Seq<char>
    decreases n,
{
    if n == 0 {
        Seq::empty()
    } else if n == 1 {
        crate::text::decimal(1)
    } else {
        ids_text((n - 1) as nat) + seq![' '] + crate::text::decimal(n)
    }
}

/// A wrapper around `Vec<Variable>`; variable `v` is stored at index `v - 1`.
#[derive(Clone, Debug, PartialEq)]
pub struct Variables(pub Vec<Variable>);

impl Variables {
    pub fn new(variable_count: usize) -> (r: Variables)
        ensures
            r.0@.len() == variable_count,
            forall|i: int|
                0 <= i < variable_count ==> (#[trigger] r.0@[i]).positive_watched_occurrences@.len()
                    == 0 && r.0@[i].negative_watched_occurrences@.len() == 0
                    && r.0@[i].positive_occurrences_count == 0
                    && r.0@[i].negative_occurrences_count == 0,
    {
        let mut v: Vec<Variable> = Vec::new();
        let mut i: usize = 0;
        while i < variable_count
            invariant
                i <= variable_count,
                v@.len() == i,
                forall|k: int|
                    0 <= k < i ==> (#[trigger] v@[k]).positive_watched_occurrences@.len() == 0
                        && v@[k].negative_watched_occurrences@.len() == 0
                        && v@[k].positive_occurrences_count == 0
                        && v@[k].negative_occurrences_count == 0,
            decreases variable_count - i,
        {
            v.push(Variable::new());
            i = i + 1;
        }
        Variables(v)
    }

    pub fn get(&self, variable_id: VariableId) -> (r: &Variable)
        requires
            1 <= variable_id <= self.0@.len(),
        ensures
            *r == self.0@[variable_id - 1],
    {
        &self.0[(variable_id - 1) as usize]
    }

    pub fn get_mut(&mut self, variable_id: VariableId) -> (r: &mut Variable)
        requires
            1 <= variable_id <= old(self).0@.len(),
        ensures
            *r == old(self).0@[variable_id - 1],
            final(self).0@ == old(self).0@.update(variable_id - 1, *final(r)),
    {
        &mut self.0[(variable_id - 1) as usize]
    }

    pub fn len(&self) -> (r: usize)
        ensures
            r == self.0@.len(),
    {
        self.0.len()
    }

    /// The IDs of the variables in ascending order, one space between two of them.
    pub fn to_string(&self) -> (r: String)
        requires
            self.0@.len() < u64::MAX,
        ensures
            r@ == ids_text(self.0@.len()),
    {
        let n = self.0.len();
        let mut s = String::new();
        let mut i: usize = 0;
        while i < n
            invariant
                n == self.0@.len(),
                n < u64::MAX,
                i <= n,
                s@ == ids_text(i as nat),
            decreases n - i,
        {
            let ghost prev = s@;
            if i > 0 {
                crate::text::push_char(&mut s, ' ');
            }
            crate::text::push_decimal(&mut s, (i + 1) as u64);
            proof {
                if i == 0 {
                    assert(s@ =~= ids_text(1));
                } else {
                    assert(s@ =~= ids_text((i + 1) as nat));
                }
            }
            i = i + 1;
        }
        s
    }

    /// The variables, in the order of their IDs.
    pub fn iter(&self) -> (r: std::slice::Iter<'_, Variable>)
        ensures
            vstd::std_specs::iter::IteratorSpec::remaining(&r) == self.0@.as_ref(),
    {
        broadcast use vstd::std_specs::slice::axiom_spec_slice_iter;
        self.0.as_slice().iter()
    }

    /// Find any unassigned variable. Expects there to be at least one.
    ///
    /// # Returns
    /// The smallest unassigned variable ID.
    pub fn find_unassigned(&self, assignments: &[Option<bool>]) -> (r: VariableId)
        requires
            assignments@.len() >= self.0@.len(),
            self.0@.len() < u32::MAX,
            exists|i: int| 0 <= i < self.0@.len() && assignments@[i] is None,
        ensures
            1 <= r <= self.0@.len(),
            assignments@[r - 1] is None,
            forall|i: int| 0 <= i < r - 1 ==> assignments@[i] is Some,
    {
        let n = self.0.len();
        let mut i: usize = 0;
        while i < n
            invariant
                n == self.0@.len(),
                n < u32::MAX,
                assignments@.len() >= n,
                i <= n,
                forall|k: int| 0 <= k < i ==> assignments@[k] is Some,
                exists|k: int| 0 <= k < n && assignments@[k] is None,
            decreases n - i,
        {
            if assignments[i].is_none() {
                return (i as u32) + 1;
            }
            i = i + 1;
        }
        proof {
            let k = choose|k: int| 0 <= k < n && assignments@[k] is None;
            assert(assignments@[k] is Some);
        }
        0
    }

    /// All unassigned variable IDs, in ascending order.
    pub fn find_all_unassigned(&self, assignments: &[Option<bool>]) -> (r: Vec<VariableId>)
        requires
            assignments@.len() >= self.0@.len(),
            self.0@.len() < u32::MAX,
        ensures
            forall|i: int| 0 <= i < r@.len() ==> 1 <= #[trigger] r@[i] <= self.0@.len(),
            forall|i: int, j: int| 0 <= i < j < r@.len() ==> r@[i] < r@[j],
            forall|v: u32|
                1 <= v <= self.0@.len() ==> (#[trigger] r@.contains(v) <==> assignments@[v - 1] is None),
    {
        let n = self.0.len();
        let mut r: Vec<VariableId> = Vec::new();
        let mut i: usize = 0;
        while i < n
            invariant
                n == self.0@.len(),
                n < u32::MAX,
                assignments@.len() >= n,
                i <= n,
                forall|k: int| 0 <= k < r@.len() ==> 1 <= #[trigger] r@[k] <= i,
                forall|a: int, b: int| 0 <= a < b < r@.len() ==> r@[a] < r@[b],
                forall|v: u32| 1 <= v <= i ==> (#[trigger] r@.contains(v) <==> assignments@[v - 1] is None),
            decreases n - i,
        {
            let ghost r0 = r@;
            if assignments[i].is_none() {
                r.push((i as u32) + 1);
            }
            proof {
                assert forall|v: u32| 1 <= v <= i + 1 implies (#[trigger] r@.contains(v)
                    <==> assignments@[v - 1] is None) by {
                    if r@.contains(v) {
                        let k = choose|k: int| 0 <= k < r@.len() && r@[k] == v;
                        assert(r@[k] <= i + 1);
                        if v <= i {
                            assert(k < r0.len());
                            assert(r0[k] == v);
                        }
                    }
                    if v <= i && r0.contains(v) {
                        let k = choose|k: int| 0 <= k < r0.len() && r0[k] == v;
                        assert(r@[k] == v);
                    }
                    if v == i + 1 && r0.contains(v) {
                        let k = choose|k: int| 0 <= k < r0.len() && r0[k] == v;
                        assert(r0[k] <= i);
                    }
                    if v == i + 1 && assignments@[v - 1] is None {
                        assert(r@[r@.len() - 1] == v);
                    }
                }
            }
            i = i + 1;
        }
        r
    }
}

} // verus!
