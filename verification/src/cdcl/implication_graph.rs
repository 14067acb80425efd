use crate::cdcl::assignment::Assignment;
use crate::cnf::clause::ClauseID;
use crate::cnf::cnf_formula::CnfFormula;
use crate::cnf::literals::{lit_var, var_of, Literals, VariableId};
use vstd::prelude::*;

verus! {

pub type DecisionLevel = usize;

/// The decision level of trail position `p`: how many decision levels start at or before `p`.
pub open spec fn level_at(starts: Seq<usize>, p: int) -> nat {
    starts.filter(|s: usize| s as int <= p).len()
}

/// With strictly ascending starts, the decision level of position `p` counts exactly the
/// starts at or before `p`, which come first.
pub proof fn lemma_level_at(starts: Seq<usize>, p: int)
    requires
        forall|i: int, j: int| 0 <= i < j < starts.len() ==> starts[i] < starts[j],
    ensures
        level_at(starts, p) <= starts.len(),
        forall|i: int| 0 <= i < starts.len() ==> (starts[i] <= p <==> i < level_at(starts, p)),
    decreases starts.len(),
{
    let pred = |s: usize| s as int <= p;
    starts.lemma_filter_len(pred);
    if starts.len() > 0 {
        let s0 = starts.drop_last();
        let x = starts.last();
        assert(s0.push(x) =~= starts);
        s0.lemma_filter_push(x, pred);
        lemma_level_at(s0, p);
        assert(level_at(starts, p) == starts.filter(pred).len());
        assert(level_at(s0, p) == s0.filter(pred).len());
        if x as int <= p && s0.len() > 0 {
            assert(s0[s0.len() - 1] < x);
            assert(s0.len() - 1 < level_at(s0, p));
        }
        assert forall|i: int| 0 <= i < starts.len() implies (starts[i] <= p <==> i < level_at(starts, p)) by {
            if i < s0.len() {
                assert(starts[i] == s0[i]);
                if x as int <= p {
                    assert(s0[i] < x);
                }
            }
        }
    }
}

/// The first trail position of variable `v`, if it is on the trail.
pub open spec fn first_position(trail: Seq<Assignment>, v: int) -> Option<int> {
    if exists|i: int| 0 <= i < trail.len() && trail[i].variable_id == v {
        Some(
            choose|i: int|
                0 <= i < trail.len() && trail[i].variable_id == v && forall|k: int|
                    0 <= k < i ==> trail[k].variable_id != v,
        )
    } else {
        None
    }
}

/// The variables on the trail from position `from` on.
pub open spec fn vars_from(trail: Seq<Assignment>, from: int, v: int) -> bool {
    exists|k: int| from <= k < trail.len() && trail[k].variable_id == v
}

/// The text of a trail entry: ` D:` before a decision and `→` before a propagated
/// assignment, then the variable with its sign.
pub open spec fn entry_text(a: Assignment) -> Seq<char> {
    (if a.reason is None {
        seq![' ', 'D', ':']
    } else {
        seq!['→']
    }) + crate::text::signed_var(a.value, a.variable_id as nat)
}

/// The texts of the trail entries, one after the other.
pub open spec fn trail_text(t: Seq<Assignment>) -> Seq<char>
    decreases t.len(),
{
    if t.len() == 0 {
        Seq::empty()
    } else {
        trail_text(t.drop_last()) + entry_text(t.last())
    }
}

/// The number of distinct values in a vector.
pub fn count_distinct(v: &Vec<usize>) -> (r: usize)
    ensures
        r == v@.to_set().len(),
{
    let mut distinct: Vec<usize> = Vec::new();
    let n = v.len();
    let mut i: usize = 0;
    while i < n
        invariant
            n == v@.len(),
            i <= n,
            distinct@.no_duplicates(),
            forall|d: usize| distinct@.contains(d) <==> v@.subrange(0, i as int).contains(d),
        decreases n - i,
    {
        let x = v[i];
        let mut present = false;
        let mut k: usize = 0;
        while k < distinct.len()
            invariant
                k <= distinct@.len(),
                present ==> distinct@.contains(x),
                !present ==> forall|m: int| 0 <= m < k ==> distinct@[m] != x,
            decreases distinct@.len() - k,
        {
            if distinct[k] == x {
                present = true;
            }
            k = k + 1;
        }
        let ghost d0 = distinct@;
        if !present {
            distinct.push(x);
        }
        proof {
            let s0 = v@.subrange(0, i as int);
            let s1 = v@.subrange(0, i + 1);
            assert(s1 =~= s0.push(x));
            assert forall|d: usize| distinct@.contains(d) <==> s1.contains(d) by {
                if d0.contains(d) {
                    let m = choose|m: int| 0 <= m < d0.len() && d0[m] == d;
                    assert(distinct@[m] == d);
                    let q = choose|q: int| 0 <= q < s0.len() && s0[q] == d;
                    assert(s1[q] == d);
                }
                if distinct@.contains(d) && !d0.contains(d) {
                    assert(s1[i as int] == d);
                }
                if s1.contains(d) {
                    let q = choose|q: int| 0 <= q < s1.len() && s1[q] == d;
                    if q < i {
                        assert(s0[q] == d);
                        let m = choose|m: int| 0 <= m < d0.len() && d0[m] == d;
                        assert(distinct@[m] == d);
                    } else if !present {
                        assert(distinct@[distinct@.len() - 1] == d);
                    }
                }
            }
            if !present {
                assert forall|a: int, b: int| 0 <= a < b < distinct@.len() implies distinct@[a]
                    != distinct@[b] by {
                    if b == distinct@.len() - 1 {
                        assert(d0[a] != x);
                    }
                }
            }
        }
        i = i + 1;
    }
    proof {
        assert(v@.subrange(0, n as int) =~= v@);
        assert(distinct@.to_set() =~= v@.to_set());
        distinct@.unique_seq_to_set();
    }
    distinct.len()
}

/// The assignment stack
///
/// # Fields
/// * `trail` - A trail of past assignments
/// * `decision_level_start` - A list of indices in the trail at which new decision level start
#[derive(Debug, Clone)]
pub struct ImplicationGraph {
    trail: Vec<Assignment>,
    decision_level_start: Vec<usize>,
}

impl ImplicationGraph {
    /// The trail as text: each decision after ` D:`, each propagated assignment after `→`.
    pub fn to_string(&self) -> (r: String)
        ensures
            r@ == trail_text(self.trail()),
    {
        let mut s = String::new();
        let n = self.trail.len();
        let mut i: usize = 0;
        assert(self.trail@.take(0) =~= Seq::<Assignment>::empty());
        while i < n
            invariant
                n == self.trail@.len(),
                i <= n,
                s@ == trail_text(self.trail@.take(i as int)),
            decreases n - i,
        {
            let ghost before = s@;
            let a = self.trail[i];
            match a.reason {
                None => {
                    crate::text::push_char(&mut s, ' ');
                    crate::text::push_char(&mut s, 'D');
                    crate::text::push_char(&mut s, ':');
                },
                Some(_) => {
                    crate::text::push_char(&mut s, '→');
                },
            }
            crate::text::push_signed(&mut s, a.value, a.variable_id as u64);
            proof {
                let t1 = self.trail@.take(i + 1);
                assert(t1.drop_last() =~= self.trail@.take(i as int));
                assert(t1.last() == a);
                assert(s@ =~= before + entry_text(a));
                assert(s@ =~= trail_text(t1));
            }
            i = i + 1;
        }
        assert(self.trail@.take(n as int) =~= self.trail@);
        s
    }

    /// The assignments on the trail, oldest first.
    pub closed spec fn trail(&self) -> Seq<Assignment> {
        self.trail@
    }

    /// The trail positions at which decision levels start.
    pub closed spec fn starts(&self) -> Seq<usize> {
        self.decision_level_start@
    }

    /// The starts of the decision levels ascend strictly and lie on the trail.
    pub open spec fn wf(&self) -> bool {
        &&& forall|i: int, j: int|
            0 <= i < j < self.starts().len() ==> self.starts()[i] < self.starts()[j]
        &&& forall|i: int| 0 <= i < self.starts().len() ==> self.starts()[i] < self.trail().len()
    }

    pub fn new() -> (r: Self)
        ensures
            r.trail().len() == 0,
            r.starts().len() == 0,
            r.wf(),
    {
        Self { trail: Vec::new(), decision_level_start: Vec::new() }
    }

    /// Returns all assignments made at the most recent decision level.
    /// If no decisions have been made yet (level 0), this returns an empty vector.
    pub fn get_assignments_of_current_decision_level(&self) -> (r: Vec<Assignment>)
        requires
            self.wf(),
        ensures
            r@ == if self.starts().len() == 0 {
                Seq::<Assignment>::empty()
            } else {
                self.trail().subrange(self.starts().last() as int, self.trail().len() as int)
            },
    {
        let nl = self.decision_level_start.len();
        if nl == 0 {
            return Vec::new();
        }
        let start = self.decision_level_start[nl - 1];
        let n = self.trail.len();
        assert(self.starts()[nl - 1] < self.trail().len());
        let mut r: Vec<Assignment> = Vec::new();
        let mut i = start;
        while i < n
            invariant
                start <= i <= n,
                n == self.trail@.len(),
                r@ == self.trail@.subrange(start as int, i as int),
            decreases n - i,
        {
            r.push(self.trail[i]);
            assert(r@ =~= self.trail@.subrange(start as int, i + 1));
            i = i + 1;
        }
        r
    }

    /// Records a new decision assignment and increments the decision level.
    pub fn push_decision(&mut self, assignment: Assignment)
        requires
            old(self).wf(),
        ensures
            final(self).wf(),
            final(self).trail() == old(self).trail().push(assignment),
            final(self).starts() == old(self).starts().push(old(self).trail().len() as usize),
    {
        let ghost s0 = self.decision_level_start@;
        self.decision_level_start.push(self.trail.len());
        self.trail.push(assignment);
        proof {
            assert forall|i: int| 0 <= i < s0.len() implies #[trigger] s0[i] < self.trail@.len() - 1 by {
                assert(old(self).starts()[i] < old(self).trail().len());
            }
            assert forall|i: int, j: int|
                0 <= i < j < self.starts().len() implies self.starts()[i] < self.starts()[j] by {
                if j == s0.len() {
                    assert(s0[i] < self.trail@.len() - 1);
                } else {
                    assert(old(self).starts()[i] < old(self).starts()[j]);
                }
            }
        }
    }

    /// Records an assignment forced by unit propagation; it stays within the current decision level.
    pub fn push_forced(&mut self, assignment: Assignment)
        requires
            old(self).wf(),
        ensures
            final(self).wf(),
            final(self).trail() == old(self).trail().push(assignment),
            final(self).starts() == old(self).starts(),
    {
        self.trail.push(assignment);
        assert forall|i: int| 0 <= i < self.starts().len() implies self.starts()[i] < self.trail().len() by {
            assert(old(self).starts()[i] < old(self).trail().len());
        }
    }

    /// Finds the assignment to a variable of the clause that occurred most recently on the trail.
    pub fn get_latest_assignment_for_given_literals(&self, clause: &Literals) -> (r: Option<&Assignment>)
        ensures
            match r {
                Some(a) => exists|k: int|
                    0 <= k < self.trail().len() && self.trail()[k] == *a && (exists|j: int|
                        0 <= j < clause@.len() && var_of(clause@[j]) == a.variable_id) && forall|
                        m: int,
                        j: int,
                    |
                        k < m < self.trail().len() && 0 <= j < clause@.len() ==> var_of(clause@[j])
                            != self.trail()[m].variable_id,
                None => forall|m: int, j: int|
                    0 <= m < self.trail().len() && 0 <= j < clause@.len() ==> var_of(clause@[j])
                        != self.trail()[m].variable_id,
            },
    {
        let lits = clause.iter();
        let mut i = self.trail.len();
        while i > 0
            invariant
                i <= self.trail@.len(),
                lits@.len() == clause@.len(),
                forall|k: int| 0 <= k < lits@.len() ==> (#[trigger] lits@[k]).0 as int == var_of(clause@[k]),
                forall|m: int, j: int|
                    i <= m < self.trail@.len() && 0 <= j < clause@.len() ==> var_of(clause@[j])
                        != self.trail@[m].variable_id,
            decreases i,
        {
            let v = self.trail[i - 1].variable_id;
            let mut j: usize = 0;
            while j < lits.len()
                invariant
                    0 < i <= self.trail@.len(),
                    v == self.trail@[i - 1].variable_id,
                    forall|m: int, jj: int|
                        i <= m < self.trail@.len() && 0 <= jj < clause@.len() ==> var_of(clause@[jj])
                            != self.trail@[m].variable_id,
                    j <= lits@.len(),
                    lits@.len() == clause@.len(),
                    forall|k: int| 0 <= k < lits@.len() ==> (#[trigger] lits@[k]).0 as int == var_of(clause@[k]),
                    forall|k: int| 0 <= k < j ==> var_of(clause@[k]) != v,
                decreases lits@.len() - j,
            {
                if lits[j].0 == v {
                    assert(var_of(clause@[j as int]) == v);
                    assert(self.trail@[i - 1] == self.trail@[i - 1]);
                    return Some(&self.trail[i - 1]);
                }
                j = j + 1;
            }
            i = i - 1;
        }
        None
    }

    /// The decision level of a variable: how many decision levels start at or before its first
    /// position on the trail; `None` if it is not on the trail.
    pub fn get_decision_level(&self, variable: &VariableId) -> (r: Option<usize>)
        ensures
            match first_position(self.trail(), *variable as int) {
                Some(p) => r == Some(level_at(self.starts(), p) as usize),
                None => r is None,
            },
    {
        let n = self.trail.len();
        let mut p: usize = 0;
        while p < n && self.trail[p].variable_id != *variable
            invariant
                n == self.trail@.len(),
                p <= n,
                forall|k: int| 0 <= k < p ==> self.trail@[k].variable_id != *variable,
            decreases n - p,
        {
            p = p + 1;
        }
        if p == n {
            proof {
                if exists|i: int| 0 <= i < self.trail@.len() && self.trail@[i].variable_id == *variable {
                    let i = choose|i: int| 0 <= i < self.trail@.len() && self.trail@[i].variable_id == *variable;
                    assert(self.trail@[i].variable_id != *variable);
                }
            }
            return None;
        }
        proof {
            let q = first_position(self.trail@, *variable as int)->0;
            assert(first_position(self.trail@, *variable as int) == Some(p as int)) by {
                assert(self.trail@[p as int].variable_id == *variable);
                if q < p {
                } else if q > p {
                }
            }
        }
        let m = self.decision_level_start.len();
        let mut count: usize = 0;
        let mut i: usize = 0;
        while i < m
            invariant
                m == self.decision_level_start@.len(),
                i <= m,
                count <= i,
                count == self.decision_level_start@.subrange(0, i as int).filter(
                    |s: usize| s as int <= p as int,
                ).len(),
            decreases m - i,
        {
            proof {
                let pre = self.decision_level_start@.subrange(0, i as int);
                assert(self.decision_level_start@.subrange(0, i + 1) =~= pre.push(
                    self.decision_level_start@[i as int],
                ));
                pre.lemma_filter_push(
                    self.decision_level_start@[i as int],
                    |s: usize| s as int <= p as int,
                );
            }
            if self.decision_level_start[i] <= p {
                count = count + 1;
            }
            i = i + 1;
        }
        assert(self.decision_level_start@.subrange(0, m as int) =~= self.decision_level_start@);
        Some(count)
    }

    pub fn get_current_decision_level(&self) -> (r: usize)
        ensures
            r == self.starts().len(),
    {
        self.decision_level_start.len()
    }

    pub fn get_latest_assignment(&self) -> (r: Option<&Assignment>)
        ensures
            self.trail().len() == 0 ==> r is None,
            self.trail().len() > 0 ==> r == Some(&self.trail().last()),
    {
        if self.trail.len() == 0 {
            None
        } else {
            Some(&self.trail[self.trail.len() - 1])
        }
    }

    /// Reverts the solver to a previous decision level, undoing all assignments made after that point.
    ///
    /// # Arguments
    /// * `cnf_formula` - The formula for this backjump
    /// * `desired_decision_level` - The target level to return to. All assignments above this decision level will be removed.
    pub fn backjump(&mut self, cnf_formula: &mut CnfFormula, desired_decision_level: DecisionLevel)
        requires
            old(self).wf(),
            old(cnf_formula).wf(),
            desired_decision_level < old(self).starts().len(),
            forall|k: int|
                0 <= k < old(self).trail().len() ==> 1 <= (#[trigger] old(self).trail()[k]).variable_id
                    <= old(cnf_formula).variable_count,
        ensures
            final(self).wf(),
            final(cnf_formula).wf(),
            final(self).trail() == old(self).trail().take(
                old(self).starts()[desired_decision_level as int] as int,
            ),
            final(self).starts() == old(self).starts().take(desired_decision_level as int),
            final(cnf_formula).assignments@.len() == old(cnf_formula).assignments@.len(),
            forall|i: int|
                0 <= i < old(cnf_formula).assignments@.len() ==> #[trigger] final(cnf_formula).assignments@[i]
                    == if vars_from(
                    old(self).trail(),
                    old(self).starts()[desired_decision_level as int] as int,
                    i + 1,
                ) {
                    None
                } else {
                    old(cnf_formula).assignments@[i]
                },
            final(cnf_formula).clauses == old(cnf_formula).clauses,
            final(cnf_formula).variables == old(cnf_formula).variables,
            final(cnf_formula).variable_count == old(cnf_formula).variable_count,
            final(cnf_formula).free_indices == old(cnf_formula).free_indices,
            final(cnf_formula).current_id == old(cnf_formula).current_id,
            final(cnf_formula).learned_clause_start == old(cnf_formula).learned_clause_start,
    {
        let split_point = self.decision_level_start[desired_decision_level];
        let n = self.trail.len();
        let mut i = split_point;
        while i < n
            invariant
                split_point <= i <= n,
                n == self.trail@.len(),
                self.trail@ == old(self).trail@,
                cnf_formula.wf(),
                forall|k: int|
                    0 <= k < self.trail@.len() ==> 1 <= (#[trigger] self.trail@[k]).variable_id
                        <= cnf_formula.variable_count,
                cnf_formula.assignments@.len() == old(cnf_formula).assignments@.len(),
                forall|v: int|
                    0 <= v < old(cnf_formula).assignments@.len() ==> #[trigger] cnf_formula.assignments@[v]
                        == if exists|k: int|
                        split_point <= k < i && self.trail@[k].variable_id == v + 1 {
                        None
                    } else {
                        old(cnf_formula).assignments@[v]
                    },
                cnf_formula.clauses == old(cnf_formula).clauses,
                cnf_formula.variables == old(cnf_formula).variables,
                cnf_formula.variable_count == old(cnf_formula).variable_count,
                cnf_formula.free_indices == old(cnf_formula).free_indices,
                cnf_formula.current_id == old(cnf_formula).current_id,
                cnf_formula.learned_clause_start == old(cnf_formula).learned_clause_start,
            decreases n - i,
        {
            cnf_formula.undo_assignment(&self.trail[i]);
            proof {
                assert forall|v: int| 0 <= v < old(cnf_formula).assignments@.len() implies #[trigger] cnf_formula.assignments@[v]
                    == if exists|k: int| split_point <= k < i + 1 && self.trail@[k].variable_id == v + 1 {
                    None
                } else {
                    old(cnf_formula).assignments@[v]
                } by {
                    if v + 1 == self.trail@[i as int].variable_id {
                        assert(split_point <= i < i + 1);
                    }
                }
            }
            i = i + 1;
        }
        self.trail.truncate(split_point);
        self.decision_level_start.truncate(desired_decision_level);
        proof {
            assert(old(self).starts()[desired_decision_level as int] < old(self).trail().len());
        }
    }

    /// The number of distinct decision levels among the variables of the literals.
    pub fn calculate_lbd(&self, literals: &Literals) -> (r: usize)
        requires
            self.wf(),
            forall|j: int|
                0 <= j < literals@.len() ==> first_position(self.trail(), var_of(#[trigger] literals@[j]))
                    is Some,
        ensures
            r == Seq::new(
                literals@.len(),
                |j: int|
                    level_at(
                        self.starts(),
                        first_position(self.trail(), var_of(literals@[j]))->0,
                    ) as usize,
            ).to_set().len(),
    {
        let lits = literals.iter();
        let mut levels: Vec<usize> = Vec::new();
        let mut i: usize = 0;
        while i < lits.len()
            invariant
                i <= lits@.len(),
                lits@.len() == literals@.len(),
                forall|k: int| 0 <= k < lits@.len() ==> (#[trigger] lits@[k]).0 as int == var_of(literals@[k]),
                forall|j: int|
                    0 <= j < literals@.len() ==> first_position(self.trail(), var_of(#[trigger] literals@[j]))
                        is Some,
                levels@.len() == i,
                forall|j: int|
                    0 <= j < i ==> #[trigger] levels@[j] == level_at(
                        self.starts(),
                        first_position(self.trail(), var_of(literals@[j]))->0,
                    ) as usize,
            decreases lits@.len() - i,
        {
            let v = lits[i].0;
            assert(v as int == var_of(literals@[i as int]));
            let level = self.get_decision_level(&v).unwrap();
            levels.push(level);
            i = i + 1;
        }
        assert(levels@ =~= Seq::new(
            literals@.len(),
            |j: int|
                level_at(self.starts(), first_position(self.trail(), var_of(literals@[j]))->0) as usize,
        ));
        count_distinct(&levels)
    }

    /// Clauses that must not be deleted because they force an assignment on the trail.
    pub fn locked_clauses(&self, cnf_formula: &CnfFormula) -> (r: Vec<ClauseID>)
        ensures
            forall|c: ClauseID| r@.contains(c) <==> exists|k: int|
                0 <= k < self.trail().len() && self.trail()[k].reason == Some(c),
    {
        let mut r: Vec<ClauseID> = Vec::new();
        let n = self.trail.len();
        let mut i: usize = 0;
        while i < n
            invariant
                n == self.trail@.len(),
                i <= n,
                forall|c: ClauseID| r@.contains(c) <==> exists|k: int|
                    0 <= k < i && self.trail@[k].reason == Some(c),
            decreases n - i,
        {
            let ghost r0 = r@;
            match self.trail[i].reason {
                Some(c) => r.push(c),
                None => {},
            }
            proof {
                assert forall|c: ClauseID| r@.contains(c) <==> exists|k: int|
                    0 <= k < i + 1 && self.trail@[k].reason == Some(c) by {
                    if r0.contains(c) {
                        let m = choose|m: int| 0 <= m < r0.len() && r0[m] == c;
                        assert(r@[m] == c);
                    }
                    if r@.contains(c) && !r0.contains(c) {
                        assert(self.trail@[i as int].reason == Some(c));
                    }
                    if exists|k: int| 0 <= k < i + 1 && self.trail@[k].reason == Some(c) {
                        let k = choose|k: int| 0 <= k < i + 1 && self.trail@[k].reason == Some(c);
                        if k == i {
                            assert(r@[r@.len() - 1] == c);
                        } else {
                            let m = choose|m: int| 0 <= m < r0.len() && r0[m] == c;
                            assert(r@[m] == c);
                        }
                    }
                }
            }
            i = i + 1;
        }
        r
    }
}

} // verus!
