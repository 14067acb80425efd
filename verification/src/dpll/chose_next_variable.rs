use crate::assignment::single_assignment::{AssignmentReason, AssignmentValue, SingleAssignment};
use crate::cnf::clause::clause_wf;
use crate::cnf::cnf_formula::CnfFormula;
use crate::cnf::literals::{clause_satisfied, lit_true, lit_unassigned, lit_var, var_of, Literals};
use vstd::prelude::*;

verus! {

/// How many literals of `lits` are unassigned.
pub open spec fn unassigned_count(a: Seq<Option<bool>>, lits: Seq<i32>) -> nat
    decreases lits.len(),
{
    if lits.len() == 0 {
        0
    } else {
        unassigned_count(a, lits.drop_last()) + if lit_unassigned(a, lits.last()) {
            1nat
        } else {
            0nat
        }
    }
}

/// No literal of clause `c` is true.
pub open spec fn is_open(f: &CnfFormula, c: int) -> bool {
    !clause_satisfied(f.assignments@, f.clauses@[c].literals@)
}

/// The number of unassigned literals of clause `c`.
pub open spec fn width(f: &CnfFormula, c: int) -> nat {
    unassigned_count(f.assignments@, f.clauses@[c].literals@)
}

/// Clause `c` is the first open clause of least width.
pub open spec fn is_shortest_open(f: &CnfFormula, c: int) -> bool {
    &&& 0 <= c < f.clauses@.len()
    &&& is_open(f, c)
    &&& forall|d: int| 0 <= d < f.clauses@.len() && is_open(f, d) ==> width(f, c) <= #[trigger] width(f, d)
    &&& forall|d: int| 0 <= d < c && is_open(f, d) ==> width(f, c) < #[trigger] width(f, d)
}

/// Every open clause has an unassigned literal, and there is an open clause.
pub open spec fn has_open_choice(f: &CnfFormula) -> bool {
    &&& exists|c: int| 0 <= c < f.clauses@.len() && is_open(f, c)
    &&& forall|c: int| 0 <= c < f.clauses@.len() && is_open(f, c) ==> #[trigger] width(f, c) > 0
}

/// `i` is the position of the first unassigned literal of `lits`.
pub open spec fn first_unassigned_at(a: Seq<Option<bool>>, lits: Seq<i32>, i: int) -> bool {
    &&& 0 <= i < lits.len()
    &&& lit_unassigned(a, lits[i])
    &&& forall|k: int| 0 <= k < i ==> !lit_unassigned(a, #[trigger] lits[k])
}

/// The choice of the shortest-clause rule: the first unassigned literal of the first open
/// clause of least width, made true.
pub open spec fn shortest_clause_choice(f: &CnfFormula, variable_id: int, value: bool) -> bool {
    exists|c: int, i: int|
        is_shortest_open(f, c) && first_unassigned_at(f.assignments@, f.clauses@[c].literals@, i)
            && variable_id == var_of(#[trigger] f.clauses@[c].literals@[i]) && value == (f.clauses@[c].literals@[i]
            > 0)
}

pub proof fn lemma_unassigned_count_zero(a: Seq<Option<bool>>, lits: Seq<i32>)
    requires
        forall|k: int| 0 <= k < lits.len() ==> !lit_unassigned(a, #[trigger] lits[k]),
    ensures
        unassigned_count(a, lits) == 0,
    decreases lits.len(),
{
    if lits.len() > 0 {
        assert forall|k: int| 0 <= k < lits.drop_last().len() implies !lit_unassigned(
            a,
            #[trigger] lits.drop_last()[k],
        ) by {
            assert(lits.drop_last()[k] == lits[k]);
        }
        lemma_unassigned_count_zero(a, lits.drop_last());
    }
}

/// Whether some literal is true, and how many are unassigned.
fn clause_status(a: &[Option<bool>], lits: &Literals, n: usize) -> (r: (bool, usize))
    requires
        forall|k: int|
            0 <= k < lits@.len() ==> 1 <= var_of(#[trigger] lits@[k]) <= a@.len() && lits@[k] != i32::MIN,
        a@.len() == n,
    ensures
        r.0 == clause_satisfied(a@, lits@),
        r.1 == unassigned_count(a@, lits@),
{
    let len = lits.len();
    let mut sat = false;
    let mut count: usize = 0;
    let mut i: usize = 0;
    while i < len
        invariant
            len == lits@.len(),
            i <= len,
            a@.len() == n,
            forall|k: int|
                0 <= k < lits@.len() ==> 1 <= var_of(#[trigger] lits@[k]) <= a@.len() && lits@[k] != i32::MIN,
            sat == exists|k: int| 0 <= k < i && lit_true(a@, #[trigger] lits@[k]),
            count == unassigned_count(a@, lits@.take(i as int)),
            count <= i,
        decreases len - i,
    {
        let l = lits.get(i);
        let v = lit_var(l);
        assert(lits@.take(i + 1).drop_last() =~= lits@.take(i as int));
        match a[(v - 1) as usize] {
            Some(b) => {
                if b == (l > 0) {
                    sat = true;
                }
            },
            None => {
                count = count + 1;
            },
        }
        i = i + 1;
    }
    assert(lits@.take(len as int) =~= lits@);
    (sat, count)
}

/// Whether clause `c` is satisfied, and its width.
pub fn clause_status_of(f: &CnfFormula, c: usize) -> (r: (bool, usize))
    requires
        f.wf(),
        c < f.clauses@.len(),
    ensures
        r.0 == !is_open(f, c as int),
        r.1 == width(f, c as int),
{
    assert(clause_wf(f.clauses@[c as int], f.variable_count as int));
    clause_status(f.assignments.as_slice(), &f.clauses[c].literals, f.variable_count)
}

/// How many of the first `k` clauses are open.
pub open spec fn open_count(f: &CnfFormula, k: int) -> nat
    decreases k,
{
    if k <= 0 {
        0
    } else {
        open_count(f, k - 1) + if is_open(f, k - 1) {
            1nat
        } else {
            0nat
        }
    }
}

/// The number of clauses that no literal satisfies yet.
pub fn open_clause_count(f: &CnfFormula) -> (r: usize)
    requires
        f.wf(),
    ensures
        r == open_count(f, f.clauses@.len() as int),
{
    let n = f.clauses.len();
    let mut count: usize = 0;
    let mut i: usize = 0;
    while i < n
        invariant
            f.wf(),
            n == f.clauses@.len(),
            i <= n,
            count == open_count(f, i as int),
            count <= i,
        decreases n - i,
    {
        let (sat, _) = clause_status_of(f, i);
        if !sat {
            count = count + 1;
        }
        i = i + 1;
    }
    count
}

/// How often `l` occurs in `s`.
pub open spec fn count_lit(s: Seq<i32>, l: i32) -> nat
    decreases s.len(),
{
    if s.len() == 0 {
        0
    } else {
        count_lit(s.drop_last(), l) + if s.last() == l {
            1nat
        } else {
            0nat
        }
    }
}

/// How often `l` occurs in the open clauses among the first `k`.
pub open spec fn open_occurrences(f: &CnfFormula, l: i32, k: int) -> nat
    decreases k,
{
    if k <= 0 {
        0
    } else {
        open_occurrences(f, l, k - 1) + if is_open(f, k - 1) {
            count_lit(f.clauses@[k - 1].literals@, l)
        } else {
            0nat
        }
    }
}

/// `n`, or the largest `usize` if `n` is larger.
pub open spec fn capped(n: nat) -> usize {
    if n > usize::MAX {
        usize::MAX
    } else {
        n as usize
    }
}

/// How often `l` occurs in `lits`.
fn count_in_clause(lits: &Literals, l: i32) -> (r: usize)
    ensures
        r == count_lit(lits@, l),
{
    let n = lits.len();
    let mut c: usize = 0;
    let mut i: usize = 0;
    while i < n
        invariant
            n == lits@.len(),
            i <= n,
            c == count_lit(lits@.take(i as int), l),
            c <= i,
        decreases n - i,
    {
        assert(lits@.take(i + 1).drop_last() =~= lits@.take(i as int));
        if lits.get(i) == l {
            c = c + 1;
        }
        i = i + 1;
    }
    assert(lits@.take(n as int) =~= lits@);
    c
}

/// How often `l` occurs in the clauses that no literal satisfies yet (saturating at the
/// largest `usize`).
pub fn open_occurrence_count(f: &CnfFormula, l: i32) -> (r: usize)
    requires
        f.wf(),
    ensures
        r == capped(open_occurrences(f, l, f.clauses@.len() as int)),
{
    let n = f.clauses.len();
    let mut c: usize = 0;
    let mut i: usize = 0;
    while i < n
        invariant
            f.wf(),
            n == f.clauses@.len(),
            i <= n,
            c == capped(open_occurrences(f, l, i as int)),
        decreases n - i,
    {
        let (sat, _) = clause_status_of(f, i);
        if !sat {
            let k = count_in_clause(&f.clauses[i].literals, l);
            c = c.saturating_add(k);
        }
        i = i + 1;
    }
    c
}

/// How often `l` occurs in the open clauses of width `w` among the first `k`.
pub open spec fn narrow_occurrences(f: &CnfFormula, l: i32, w: nat, k: int) -> nat
    decreases k,
{
    if k <= 0 {
        0
    } else {
        narrow_occurrences(f, l, w, k - 1) + if is_open(f, k - 1) && width(f, k - 1) == w {
            count_lit(f.clauses@[k - 1].literals@, l)
        } else {
            0nat
        }
    }
}

/// How often `l` occurs in the open clauses of width `w` (saturating at the largest `usize`).
pub fn narrow_occurrence_count(f: &CnfFormula, l: i32, w: usize) -> (r: usize)
    requires
        f.wf(),
    ensures
        r == capped(narrow_occurrences(f, l, w as nat, f.clauses@.len() as int)),
{
    let n = f.clauses.len();
    let mut c: usize = 0;
    let mut i: usize = 0;
    while i < n
        invariant
            f.wf(),
            n == f.clauses@.len(),
            i <= n,
            c == capped(narrow_occurrences(f, l, w as nat, i as int)),
        decreases n - i,
    {
        let (sat, cw) = clause_status_of(f, i);
        if !sat && cw == w {
            let k = count_in_clause(&f.clauses[i].literals, l);
            c = c.saturating_add(k);
        }
        i = i + 1;
    }
    c
}

/// The index of the last largest key among the positions that `eligible` marks.
pub fn last_max(keys: &Vec<u128>, eligible: &Vec<bool>) -> (r: usize)
    requires
        keys@.len() == eligible@.len(),
        exists|i: int| 0 <= i < eligible@.len() && eligible@[i],
    ensures
        r < keys@.len(),
        eligible@[r as int],
        forall|j: int| 0 <= j < keys@.len() && eligible@[j] ==> keys@[j] <= keys@[r as int],
        forall|j: int| r < j < keys@.len() && eligible@[j] ==> keys@[j] < keys@[r as int],
{
    let n = keys.len();
    let mut best: Option<usize> = None;
    let mut i: usize = 0;
    while i < n
        invariant
            n == keys@.len(),
            n == eligible@.len(),
            i <= n,
            match best {
                Some(b) => {
                    &&& b < i
                    &&& eligible@[b as int]
                    &&& forall|j: int| 0 <= j < i && eligible@[j] ==> keys@[j] <= keys@[b as int]
                    &&& forall|j: int| b < j < i && eligible@[j] ==> keys@[j] < keys@[b as int]
                },
                None => forall|j: int| 0 <= j < i ==> !eligible@[j],
            },
        decreases n - i,
    {
        if eligible[i] {
            let better = match best {
                Some(b) => keys[i] >= keys[b],
                None => true,
            };
            if better {
                best = Some(i);
            }
        }
        i = i + 1;
    }
    match best {
        Some(b) => b,
        None => {
            proof {
                let k = choose|k: int| 0 <= k < eligible@.len() && eligible@[k];
                assert(!eligible@[k]);
            }
            0
        },
    }
}

/// The first open clause of least width.
pub(crate) fn shortest_open_clause(f: &CnfFormula) -> (c: usize)
    requires
        f.wf(),
        exists|c: int| 0 <= c < f.clauses@.len() && is_open(f, c),
    ensures
        is_shortest_open(f, c as int),
{
    let n = f.clauses.len();
    let mut best: Option<(usize, usize)> = None;
    let mut i: usize = 0;
    while i < n
        invariant
            f.wf(),
            n == f.clauses@.len(),
            i <= n,
            match best {
                Some((b, w)) => {
                    &&& b < i
                    &&& is_open(f, b as int)
                    &&& w == width(f, b as int)
                    &&& forall|d: int| 0 <= d < i && is_open(f, d) ==> w <= #[trigger] width(f, d)
                    &&& forall|d: int| 0 <= d < b && is_open(f, d) ==> w < #[trigger] width(f, d)
                },
                None => forall|d: int| 0 <= d < i ==> !is_open(f, d),
            },
        decreases n - i,
    {
        let (sat, w) = clause_status_of(f, i);
        if !sat {
            let better = match best {
                Some((_, bw)) => w < bw,
                None => true,
            };
            if better {
                best = Some((i, w));
            }
        }
        i = i + 1;
    }
    match best {
        Some((b, _)) => b,
        None => {
            proof {
                let c = choose|c: int| 0 <= c < f.clauses@.len() && is_open(f, c);
                assert(!is_open(f, c));
            }
            0
        },
    }
}

/// The position of the first unassigned literal of clause `c`.
fn first_unassigned_literal(f: &CnfFormula, c: usize) -> (i: usize)
    requires
        f.wf(),
        c < f.clauses@.len(),
        width(f, c as int) > 0,
    ensures
        first_unassigned_at(f.assignments@, f.clauses@[c as int].literals@, i as int),
{
    let lits = &f.clauses[c].literals;
    assert(clause_wf(f.clauses@[c as int], f.variable_count as int));
    let len = lits.len();
    let mut i: usize = 0;
    while i < len
        invariant
            f.wf(),
            c < f.clauses@.len(),
            *lits == f.clauses@[c as int].literals,
            len == lits@.len(),
            i <= len,
            clause_wf(f.clauses@[c as int], f.variable_count as int),
            forall|k: int| 0 <= k < i ==> !lit_unassigned(f.assignments@, #[trigger] lits@[k]),
        decreases len - i,
    {
        let l = lits.get(i);
        let v = lit_var(l);
        if f.assignments[(v - 1) as usize].is_none() {
            return i;
        }
        i = i + 1;
    }
    proof {
        lemma_unassigned_count_zero(f.assignments@, lits@);
    }
    0
}

/// The variable and value the shortest-clause rule picks.
pub fn chose_from_shortest_clause(f: &CnfFormula) -> (r: (u32, bool))
    requires
        f.wf(),
        has_open_choice(f),
    ensures
        shortest_clause_choice(f, r.0 as int, r.1),
        1 <= r.0 <= f.variable_count,
        f.assignments@[r.0 - 1] is None,
{
    let c = shortest_open_clause(f);
    let i = first_unassigned_literal(f, c);
    assert(clause_wf(f.clauses@[c as int], f.variable_count as int));
    let l = f.clauses[c].literals.get(i);
    (lit_var(l), l > 0)
}

/// A way to pick the next branching variable.
pub trait ChooseNextVariable {
    fn chose(cnf_formula: &CnfFormula) -> (r: SingleAssignment)
        requires
            cnf_formula.wf(),
            has_open_choice(cnf_formula),
        ensures
            1 <= r.variable_id <= cnf_formula.variable_count,
            cnf_formula.assignments@[r.variable_id - 1] is None,
            r.reason == AssignmentReason::Branching,
    ;
}

/// Picks the first unassigned literal of the first open clause of least width, made true.
pub struct ChooseNextVariableFromShortestClause;

impl ChooseNextVariable for ChooseNextVariableFromShortestClause {
    fn chose(cnf_formula: &CnfFormula) -> (r: SingleAssignment)
        ensures
            shortest_clause_choice(cnf_formula, r.variable_id as int, r.value.holds()),
    {
        let (v, value) = chose_from_shortest_clause(cnf_formula);
        let value = if value {
            AssignmentValue::True
        } else {
            AssignmentValue::False
        };
        SingleAssignment::new(v as usize, value, AssignmentReason::Branching)
    }
}

/// Sets the first unassigned variable to true.
pub struct TrivialChooseNextVariable;

impl ChooseNextVariable for TrivialChooseNextVariable {
    fn chose(cnf_formula: &CnfFormula) -> (r: SingleAssignment)
        ensures
            r.value == AssignmentValue::True,
            forall|i: int| 0 <= i < r.variable_id - 1 ==> cnf_formula.assignments@[i] is Some,
    {
        proof {
            let c = choose|c: int| 0 <= c < cnf_formula.clauses@.len() && is_open(cnf_formula, c);
            assert(width(cnf_formula, c) > 0);
            let i = choose_unassigned_position(cnf_formula, c);
            assert(clause_wf(cnf_formula.clauses@[c], cnf_formula.variable_count as int));
            let l = cnf_formula.clauses@[c].literals@[i];
            assert(cnf_formula.assignments@[var_of(l) - 1] is None);
        }
        let v = cnf_formula.variables.find_unassigned(cnf_formula.assignments.as_slice());
        SingleAssignment::new(v as usize, AssignmentValue::True, AssignmentReason::Branching)
    }
}

/// A clause with unassigned literals has one at some position.
proof fn choose_unassigned_position(f: &CnfFormula, c: int) -> (i: int)
    requires
        0 <= c < f.clauses@.len(),
        width(f, c) > 0,
    ensures
        0 <= i < f.clauses@[c].literals@.len(),
        lit_unassigned(f.assignments@, f.clauses@[c].literals@[i]),
{
    let lits = f.clauses@[c].literals@;
    if forall|k: int| 0 <= k < lits.len() ==> !lit_unassigned(f.assignments@, #[trigger] lits[k]) {
        lemma_unassigned_count_zero(f.assignments@, lits);
        assert(false);
        0
    } else {
        choose|k: int| 0 <= k < lits.len() && lit_unassigned(f.assignments@, lits[k])
    }
}

} // verus!
