use crate::cnf::literals::{
    lit_false, lit_ok, lit_true, lit_var, lits_in_range, var_of, Literal, Literals, VariableId,
};
use crate::cnf::variable::{watch_list, Variables};
use vstd::prelude::*;

verus! {

pub type ClauseID = usize;

/// The clause implementation
///
/// # Fields
/// * `satisfied_by` - The variable this clause has first been satisfied by. None, if the clause is not yet satisfied.
/// * `literals` - The set of literals in this clause
/// * `watched1` and `watched2` - The currently watched literals
/// * `literal_block_distance` - The number of decision levels among the clause's variables, as
///   measured when that is recorded (0 until then)
#[derive(Debug, PartialEq, Clone)]
pub struct Clause {
    pub satisfied_by: Option<VariableId>,
    pub literals: Literals,
    pub watched1: Literal,
    pub watched2: Literal,
    pub literal_block_distance: usize,
}

/// The clause is well formed over `n` variables: it is not empty, its literals name variables
/// in `1..=n`, and both watched literals are literals of the clause.
pub open spec fn clause_wf(c: Clause, n: int) -> bool {
    &&& c.literals@.len() > 0
    &&& lits_in_range(c.literals@, n)
    &&& c.literals@.contains(c.watched1)
    &&& c.literals@.contains(c.watched2)
}

/// The clause watches the literal `l`.
pub open spec fn watches(c: Clause, l: int) -> bool {
    c.watched1 as int == l || c.watched2 as int == l
}

/// The position of the first literal of another variable than `var_of(w)`, or none.
pub open spec fn first_other_var(lits: Seq<i32>, w: i32) -> Option<int> {
    if exists|i: int| 0 <= i < lits.len() && var_of(lits[i]) != var_of(w) {
        Some(
            choose|i: int|
                0 <= i < lits.len() && var_of(lits[i]) != var_of(w) && forall|k: int|
                    0 <= k < i ==> var_of(lits[k]) == var_of(w),
        )
    } else {
        None
    }
}

/// The text of a clause: its literals, one space between two of them, and ` 0`.
pub open spec fn clause_text(c: Clause) -> Seq<char> {
    crate::text::ints_text(c.literals@) + seq![' ', '0']
}

impl Clause {
    /// Appends the text of the clause.
    pub(crate) fn push_text(&self, s: &mut String)
        ensures
            final(s)@ == old(s)@ + clause_text(*self),
    {
        let ghost s0 = s@;
        self.literals.push_text(s);
        crate::text::push_char(s, ' ');
        crate::text::push_char(s, '0');
        assert(s@ =~= s0 + clause_text(*self));
    }

    /// The literals of the clause, one space between two of them, followed by ` 0`.
    pub fn to_string(&self) -> (r: String)
        ensures
            r@ == clause_text(*self),
    {
        let mut s = String::new();
        self.push_text(&mut s);
        assert(s@ =~= clause_text(*self));
        s
    }

    /// Creates a clause and registers it with the variables of its watched literals: the last
    /// literal and the first literal of another variable (or the last one again, if there is none).
    pub fn new(literals: Literals, variables: &mut Variables, clause_id: usize) -> (r: Self)
        requires
            literals@.len() > 0,
            lits_in_range(literals@, old(variables).0@.len() as int),
        ensures
            r.literals@ == literals@,
            r.satisfied_by is None,
            r.literal_block_distance == 0,
            r.watched1 == literals@.last(),
            match first_other_var(literals@, literals@.last()) {
                Some(i) => r.watched2 == literals@[i],
                None => r.watched2 == literals@.last(),
            },
            clause_wf(r, old(variables).0@.len() as int),
            r.watched1 == r.watched2 ==> forall|k: int|
                0 <= k < literals@.len() ==> var_of(#[trigger] literals@[k]) == var_of(r.watched1),
            final(variables).0@.len() == old(variables).0@.len(),
            forall|l: i32|
                #![trigger watch_list(final(variables).0@, l as int)]
                lit_ok(l) && 1 <= var_of(l) <= old(variables).0@.len() ==> watch_list(
                    final(variables).0@,
                    l as int,
                ) == if l == r.watched1 || l == r.watched2 {
                    watch_list(old(variables).0@, l as int).push(clause_id)
                } else {
                    watch_list(old(variables).0@, l as int)
                },
            forall|v: int|
                0 <= v < old(variables).0@.len() ==> (#[trigger] final(variables).0@[v]).positive_occurrences_count
                    == old(variables).0@[v].positive_occurrences_count
                    && final(variables).0@[v].negative_occurrences_count
                    == old(variables).0@[v].negative_occurrences_count,
    {
        let n = literals.len();
        let w1 = literals.get(n - 1);
        let w1_var = lit_var(w1);
        let mut i: usize = 0;
        while i < n && lit_var(literals.get(i)) == w1_var
            invariant
                n == literals@.len(),
                n > 0,
                w1 == literals@.last(),
                w1_var as int == var_of(w1),
                i <= n,
                forall|k: int| 0 <= k < i ==> var_of(#[trigger] literals@[k]) == var_of(w1),
            decreases n - i,
        {
            i = i + 1;
        }
        let w2 = if i < n {
            literals.get(i)
        } else {
            w1
        };
        proof {
            if i < n {
                assert(first_other_var(literals@, w1) == Some(i as int)) by {
                    let j = choose|j: int|
                        0 <= j < literals@.len() && var_of(literals@[j]) != var_of(w1) && forall|k: int|
                            0 <= k < j ==> var_of(literals@[k]) == var_of(w1);
                    if j < i {
                    } else if j > i {
                        assert(var_of(literals@[i as int]) == var_of(w1));
                    }
                }
            } else {
                assert(first_other_var(literals@, w1) is None) by {
                    if exists|j: int| 0 <= j < literals@.len() && var_of(literals@[j]) != var_of(w1) {
                        let j = choose|j: int| 0 <= j < literals@.len() && var_of(literals@[j]) != var_of(w1);
                        assert(var_of(literals@[j]) == var_of(w1));
                    }
                }
            }
            assert(literals@.contains(w1)) by {
                assert(literals@[n - 1] == w1);
            }
            assert(literals@.contains(w2)) by {
                if i < n {
                    assert(literals@[i as int] == w2);
                } else {
                    assert(literals@[n - 1] == w2);
                }
            }
        }
        let ghost vars0 = variables.0@;
        let w1_variable = variables.get_mut(w1_var);
        if w1 > 0 {
            w1_variable.positive_watched_occurrences.push(clause_id);
        } else {
            w1_variable.negative_watched_occurrences.push(clause_id);
        }
        if w1 != w2 {
            let w2_variable = variables.get_mut(lit_var(w2));
            if w2 > 0 {
                w2_variable.positive_watched_occurrences.push(clause_id);
            } else {
                w2_variable.negative_watched_occurrences.push(clause_id);
            }
        }
        proof {
            assert forall|l: i32|
                lit_ok(l) && 1 <= var_of(l) <= vars0.len() implies #[trigger] watch_list(
                variables.0@,
                l as int,
            ) == if l == w1 || l == w2 {
                watch_list(vars0, l as int).push(clause_id)
            } else {
                watch_list(vars0, l as int)
            } by {
                assert(var_of(w1) != var_of(w2) || w1 == w2 || w1 == -w2);
            }
        }
        Clause { satisfied_by: None, literals, watched1: w1, watched2: w2, literal_block_distance: 0 }
    }

    pub fn is_watched(&self, var: i32) -> (r: bool)
        ensures
            r == watches(*self, var as int),
    {
        var == self.watched1 || var == self.watched2
    }

    /// Whether the second watched literal is false.
    pub fn is_unit(&self, assignments: &[Option<bool>]) -> (r: bool)
        requires
            lit_ok(self.watched2),
            1 <= var_of(self.watched2) <= assignments@.len(),
        ensures
            r == lit_false(assignments@, self.watched2),
    {
        let t = Some(self.watched2 < 0);
        let idx = (lit_var(self.watched2) - 1) as usize;
        match (assignments[idx], t) {
            (Some(a), Some(b)) => a == b,
            _ => false,
        }
    }

    /// Whether one of the watched literals is true.
    pub fn is_satisfied_by_watched(&self, assignments: &[Option<bool>]) -> (r: bool)
        requires
            lit_ok(self.watched1),
            1 <= var_of(self.watched1) <= assignments@.len(),
            lit_ok(self.watched2),
            1 <= var_of(self.watched2) <= assignments@.len(),
        ensures
            r == (lit_true(assignments@, self.watched1) || lit_true(assignments@, self.watched2)),
    {
        let a1 = assignments[(lit_var(self.watched1) - 1) as usize];
        let a2 = assignments[(lit_var(self.watched2) - 1) as usize];
        let s1 = match a1 {
            Some(v) => v == (self.watched1 > 0),
            None => false,
        };
        let s2 = match a2 {
            Some(v) => v == (self.watched2 > 0),
            None => false,
        };
        s1 || s2
    }

    /// Whether both watched literals are false.
    pub fn is_conflict_clause(&self, assignments: &[Option<bool>]) -> (r: bool)
        requires
            lit_ok(self.watched1),
            1 <= var_of(self.watched1) <= assignments@.len(),
            lit_ok(self.watched2),
            1 <= var_of(self.watched2) <= assignments@.len(),
        ensures
            r == (lit_false(assignments@, self.watched1) && lit_false(assignments@, self.watched2)),
    {
        let a1 = assignments[(lit_var(self.watched1) - 1) as usize];
        let a2 = assignments[(lit_var(self.watched2) - 1) as usize];
        let f1 = match a1 {
            Some(v) => v == (self.watched1 < 0),
            None => false,
        };
        let f2 = match a2 {
            Some(v) => v == (self.watched2 < 0),
            None => false,
        };
        f1 && f2
    }
}

} // verus!
