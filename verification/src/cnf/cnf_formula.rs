use crate::cdcl::assignment::{Assignment, AssignmentResult};
use crate::cnf::clause::{clause_wf, watches, Clause, ClauseID};
use crate::cnf::literals::{
    clause_falsified, clause_unit_on, lit_false, lit_unassigned, lit_ok, lit_true, lit_var, lits_in_range, var_of,
    Literal, Literals,
};
use crate::cnf::variable::{watch_list, Variables};
use rustc_hash::{FxBuildHasher, FxHashSet};
use std::collections::VecDeque;
use crate::text::{push_char, push_signed, signed_var};
use vstd::prelude::*;

verus! {

/// The literal that giving `var` the value `value` makes false.
pub open spec fn made_false(var: int, value: bool) -> int {
    if value {
        -var
    } else {
        var
    }
}

/// The clause is unit: some literal is unassigned and every other literal is false.
pub open spec fn is_unit_clause(a: Seq<Option<bool>>, lits: Seq<i32>) -> bool {
    exists|w: i32| clause_unit_on(a, lits, w)
}

#[verifier::external_type_specification]
#[verifier::external_body]
pub struct ExFxBuildHasher(FxBuildHasher);

/// `HashSet::insert` on a set with the Fx hasher: the set gains the key.
#[verifier::external_body]
pub(crate) fn fx_set_insert(s: &mut FxHashSet<usize>, k: usize)
    ensures
        final(s)@ == old(s)@.insert(k),
{
    s.insert(k);
}

/// `HashSet::contains` on a set with the Fx hasher: whether the set holds the key.
#[verifier::external_body]
pub(crate) fn fx_set_contains(s: &FxHashSet<usize>, k: usize) -> (r: bool)
    ensures
        r == s@.contains(k),
{
    s.contains(&k)
}

/// The first literal of `lits` other than `other` that is not false, if any.
fn find_new_watch(lits: &Literals, other: i32, assignments: &Vec<Option<bool>>) -> (r: Option<i32>)
    requires
        lits_in_range(lits@, assignments@.len() as int),
    ensures
        match r {
            Some(l) => lits@.contains(l) && l != other && !lit_false(assignments@, l),
            None => forall|k: int|
                0 <= k < lits@.len() && lits@[k] != other ==> lit_false(assignments@, #[trigger] lits@[k]),
        },
{
    let n = lits.len();
    let mut i: usize = 0;
    while i < n
        invariant
            n == lits@.len(),
            lits_in_range(lits@, assignments@.len() as int),
            i <= n,
            forall|k: int|
                0 <= k < i && lits@[k] != other ==> lit_false(assignments@, #[trigger] lits@[k]),
        decreases n - i,
    {
        let lit = lits.get(i);
        if lit != other {
            let idx = (lit_var(lit) - 1) as usize;
            let satisfiable = match assignments[idx] {
                None => true,
                Some(v) => v == (lit > 0),
            };
            if satisfiable {
                assert(lits@[i as int] == lit);
                return Some(lit);
            }
        }
        i = i + 1;
    }
    None
}

/// The IDs of `v` that are not in `set`, in order.
fn retain_not_in(v: &Vec<usize>, set: &FxHashSet<usize>) -> (r: Vec<usize>)
    ensures
        r@ == v@.filter(|x: usize| !set@.contains(x)),
        forall|k: int| 0 <= k < r@.len() ==> v@.contains(#[trigger] r@[k]) && !set@.contains(r@[k]),
        forall|x: usize| v@.contains(x) && !set@.contains(x) ==> r@.contains(x),
        v@.no_duplicates() ==> r@.no_duplicates(),
{
    let mut r: Vec<usize> = Vec::new();
    let n = v.len();
    let mut i: usize = 0;
    while i < n
        invariant
            n == v@.len(),
            i <= n,
            r@ == v@.subrange(0, i as int).filter(|x: usize| !set@.contains(x)),
            forall|k: int|
                0 <= k < r@.len() ==> v@.subrange(0, i as int).contains(#[trigger] r@[k])
                    && !set@.contains(r@[k]),
            forall|x: usize|
                v@.subrange(0, i as int).contains(x) && !set@.contains(x) ==> r@.contains(x),
            v@.no_duplicates() ==> r@.no_duplicates(),
        decreases n - i,
    {
        let x = v[i];
        let ghost r0 = r@;
        let ghost pre = v@.subrange(0, i as int);
        let ghost pre1 = v@.subrange(0, i + 1);
        proof {
            assert(pre1 =~= pre.push(x));
            pre.lemma_filter_push(x, |x: usize| !set@.contains(x));
        }
        if !fx_set_contains(set, x) {
            r.push(x);
        }
        proof {
            assert forall|k: int| 0 <= k < r@.len() implies pre1.contains(#[trigger] r@[k])
                && !set@.contains(r@[k]) by {
                if k < r0.len() {
                    assert(r@[k] == r0[k]);
                    let j = choose|j: int| 0 <= j < pre.len() && pre[j] == r0[k];
                    assert(pre1[j] == r0[k]);
                } else {
                    assert(pre1[i as int] == x);
                }
            }
            assert forall|y: usize| pre1.contains(y) && !set@.contains(y) implies r@.contains(y) by {
                let j = choose|j: int| 0 <= j < pre1.len() && pre1[j] == y;
                if j < i {
                    assert(pre[j] == y);
                    let k = choose|k: int| 0 <= k < r0.len() && r0[k] == y;
                    assert(r@[k] == y);
                } else {
                    assert(r@[r@.len() - 1] == y);
                }
            }
            if v@.no_duplicates() && !set@.contains(x) {
                assert forall|a: int, b: int| 0 <= a < b < r@.len() implies r@[a] != r@[b] by {
                    if b == r@.len() - 1 {
                        let j = choose|j: int| 0 <= j < pre.len() && pre[j] == r@[a];
                        assert(v@[j] == pre[j]);
                        assert(v@[i as int] == x);
                    }
                }
            }
        }
        i = i + 1;
    }
    assert(v@.subrange(0, n as int) =~= v@);
    r
}

/// The number of unassigned variables.
pub open spec fn count_unset(s: Seq<Option<bool>>) -> nat
    decreases s.len(),
{
    if s.len() == 0 {
        0
    } else {
        count_unset(s.drop_last()) + if s.last() is None {
            1nat
        } else {
            0nat
        }
    }
}

pub proof fn lemma_count_unset_bounds(s: Seq<Option<bool>>)
    ensures
        count_unset(s) <= s.len(),
        count_unset(s) == 0 <==> forall|i: int| 0 <= i < s.len() ==> s[i] is Some,
    decreases s.len(),
{
    if s.len() > 0 {
        lemma_count_unset_bounds(s.drop_last());
        if count_unset(s) == 0 {
            assert forall|i: int| 0 <= i < s.len() implies s[i] is Some by {
                if i < s.len() - 1 {
                    assert(s.drop_last()[i] == s[i]);
                }
            }
        }
        if forall|i: int| 0 <= i < s.len() ==> s[i] is Some {
            assert forall|i: int| 0 <= i < s.drop_last().len() implies s.drop_last()[i] is Some by {
                assert(s.drop_last()[i] == s[i]);
            }
        }
    }
}

pub proof fn lemma_count_unset_update(s: Seq<Option<bool>>, i: int, x: Option<bool>)
    requires
        0 <= i < s.len(),
    ensures
        count_unset(s.update(i, x)) + (if s[i] is None {
            1int
        } else {
            0int
        }) == count_unset(s) + (if x is None {
            1int
        } else {
            0int
        }),
    decreases s.len(),
{
    if i == s.len() - 1 {
        assert(s.update(i, x).drop_last() =~= s.drop_last());
    } else {
        lemma_count_unset_update(s.drop_last(), i, x);
        assert(s.update(i, x).drop_last() =~= s.drop_last().update(i, x));
    }
}

pub proof fn lemma_count_unset_all_none(n: nat)
    ensures
        count_unset(Seq::new(n, |i: int| None::<bool>)) == n,
    decreases n,
{
    if n > 0 {
        lemma_count_unset_all_none((n - 1) as nat);
        assert(Seq::new(n, |i: int| None::<bool>).drop_last() =~= Seq::new(
            (n - 1) as nat,
            |i: int| None::<bool>,
        ));
    }
}

/// The watched literals of a clause of a well-formed formula name variables of the formula.
pub proof fn lemma_watched_in_range(f: &CnfFormula, c: int)
    requires
        f.wf(),
        0 <= c < f.clauses@.len(),
    ensures
        lit_ok(f.clauses@[c].watched1),
        1 <= var_of(f.clauses@[c].watched1) <= f.variable_count,
        lit_ok(f.clauses@[c].watched2),
        1 <= var_of(f.clauses@[c].watched2) <= f.variable_count,
{
    let cl = f.clauses@[c];
    assert(clause_wf(cl, f.variable_count as int));
    let k1 = choose|k: int| 0 <= k < cl.literals@.len() && cl.literals@[k] == cl.watched1;
    let k2 = choose|k: int| 0 <= k < cl.literals@.len() && cl.literals@[k] == cl.watched2;
    assert(lit_ok(cl.literals@[k1]) && 1 <= var_of(cl.literals@[k1]) <= f.variable_count);
    assert(lit_ok(cl.literals@[k2]) && 1 <= var_of(cl.literals@[k2]) <= f.variable_count);
}

/// A watch list is fine: no clause occurs twice, and every clause in it exists and watches `l`.
pub open spec fn list_ok(ws: Seq<ClauseID>, l: int, clauses: Seq<Clause>) -> bool {
    &&& ws.no_duplicates()
    &&& forall|j: int|
        0 <= j < ws.len() ==> (#[trigger] ws[j]) < clauses.len() && watches(clauses[ws[j] as int], l)
}

/// Every watch list of every literal is fine.
pub open spec fn watch_lists_ok(vars: Seq<crate::cnf::variable::Variable>, clauses: Seq<Clause>) -> bool {
    forall|l: i32|
        lit_ok(l) && 1 <= var_of(l) <= vars.len() ==> list_ok(
            #[trigger] watch_list(vars, l as int),
            l as int,
            clauses,
        )
}

/// Every clause is in the watch list of each literal it watches.
pub open spec fn complete_watches(vars: Seq<crate::cnf::variable::Variable>, clauses: Seq<Clause>) -> bool {
    forall|c: int, l: i32|
        #![trigger watches(clauses[c], l as int), watch_list(vars, l as int)]
        0 <= c < clauses.len() && lit_ok(l) && 1 <= var_of(l) <= vars.len() && watches(clauses[c], l as int)
            ==> watch_list(vars, l as int).contains(c as ClauseID)
}

/// No literal of the clause occurs negated in it.
pub open spec fn non_tautological(cl: Clause) -> bool {
    forall|i: int, j: int|
        0 <= i < cl.literals@.len() && 0 <= j < cl.literals@.len() ==> #[trigger] cl.literals@[i] != -(
        #[trigger] cl.literals@[j])
}

/// The clause watches two different literals, or all its literals are the one it watches.
pub open spec fn watch_shape(cl: Clause) -> bool {
    cl.watched1 != cl.watched2 || forall|i: int| 0 <= i < cl.literals@.len() ==> #[trigger] cl.literals@[i] == cl.watched1
}

/// The formula keeps its watches in the shape that lets them find every falsified clause:
/// complete watch lists, no tautological clause, and two different watched literals wherever
/// the clause has two different literals.
pub open spec fn watches_sound(f: CnfFormula) -> bool {
    &&& complete_watches(f.variables.0@, f.clauses@)
    &&& forall|c: int| 0 <= c < f.clauses@.len() ==> non_tautological(#[trigger] f.clauses@[c])
    &&& forall|c: int| 0 <= c < f.clauses@.len() ==> watch_shape(#[trigger] f.clauses@[c])
}

/// Two literals of the same variable are equal or opposite.
pub proof fn lemma_same_var(a: i32, b: i32)
    requires
        lit_ok(a),
        lit_ok(b),
        var_of(a) == var_of(b),
    ensures
        a == b || a == -b,
{
}

/// The two clauses watch the same two literals.
pub open spec fn same_watches(a: Clause, b: Clause) -> bool {
    (a.watched1 == b.watched1 && a.watched2 == b.watched2) || (a.watched1 == b.watched2 && a.watched2
        == b.watched1)
}

/// The two lists hold as many clauses, each with the same literals.
pub open spec fn same_literals(a: Seq<Clause>, b: Seq<Clause>) -> bool {
    &&& a.len() == b.len()
    &&& forall|c: int| #![trigger a[c]] #![trigger b[c]] 0 <= c < a.len() ==> a[c].literals@ == b[c].literals@
}

/// Some entry of `nw` names clause `c`.
pub open spec fn in_new_watches(nw: Seq<(i32, ClauseID)>, c: int) -> bool {
    exists|j: int| 0 <= j < nw.len() && nw[j].1 == c
}

/// Not both watched literals of the clause are false.
pub open spec fn watch_alive(a: Seq<Option<bool>>, cl: Clause) -> bool {
    !(lit_false(a, cl.watched1) && lit_false(a, cl.watched2))
}

/// No clause has both watched literals false.
pub open spec fn all_watches_alive(a: Seq<Option<bool>>, clauses: Seq<Clause>) -> bool {
    forall|c: int| 0 <= c < clauses.len() ==> watch_alive(a, #[trigger] clauses[c])
}

/// Appending a clause whose ID joined the watch lists of its two watched literals, and no
/// others, keeps every clause in the watch lists of the literals it watches.
pub proof fn lemma_complete_watches_push(
    vars0: Seq<crate::cnf::variable::Variable>,
    vars1: Seq<crate::cnf::variable::Variable>,
    clauses: Seq<Clause>,
    c: Clause,
    id: ClauseID,
)
    requires
        complete_watches(vars0, clauses),
        vars1.len() == vars0.len(),
        id == clauses.len(),
        forall|l: i32|
            #![trigger watch_list(vars1, l as int)]
            lit_ok(l) && 1 <= var_of(l) <= vars0.len() ==> watch_list(vars1, l as int) == if l
                == c.watched1 || l == c.watched2 {
                watch_list(vars0, l as int).push(id)
            } else {
                watch_list(vars0, l as int)
            },
    ensures
        complete_watches(vars1, clauses.push(c)),
{
    let cs = clauses.push(c);
    assert forall|k: int, l: i32|
        #![trigger watches(cs[k], l as int), watch_list(vars1, l as int)]
        0 <= k < cs.len() && lit_ok(l) && 1 <= var_of(l) <= vars1.len() && watches(cs[k], l as int)
            implies watch_list(vars1, l as int).contains(k as ClauseID) by {
        let ws0 = watch_list(vars0, l as int);
        if k < clauses.len() {
            assert(cs[k] == clauses[k]);
            assert(watches(clauses[k], l as int));
            assert(ws0.contains(k as ClauseID));
            let j = choose|j: int| 0 <= j < ws0.len() && ws0[j] == k as ClauseID;
            if l == c.watched1 || l == c.watched2 {
                assert(ws0.push(id)[j] == k as ClauseID);
            }
        } else {
            assert(cs[k] == c);
            assert(ws0.push(id)[ws0.len() as int] == id);
        }
    }
}

/// Appending a well formed clause, whose ID joined the watch lists of its two watched literals
/// and no others, keeps every watch list fine.
pub proof fn lemma_watch_lists_push(
    vars0: Seq<crate::cnf::variable::Variable>,
    vars1: Seq<crate::cnf::variable::Variable>,
    clauses: Seq<Clause>,
    c: Clause,
    id: ClauseID,
)
    requires
        watch_lists_ok(vars0, clauses),
        vars1.len() == vars0.len(),
        id == clauses.len(),
        clause_wf(c, vars0.len() as int),
        forall|l: i32|
            #![trigger watch_list(vars1, l as int)]
            lit_ok(l) && 1 <= var_of(l) <= vars0.len() ==> watch_list(vars1, l as int) == if l
                == c.watched1 || l == c.watched2 {
                watch_list(vars0, l as int).push(id)
            } else {
                watch_list(vars0, l as int)
            },
    ensures
        watch_lists_ok(vars1, clauses.push(c)),
{
    let cs = clauses.push(c);
    assert forall|l: i32| lit_ok(l) && 1 <= var_of(l) <= vars1.len() implies list_ok(
        #[trigger] watch_list(vars1, l as int),
        l as int,
        cs,
    ) by {
        let ws0 = watch_list(vars0, l as int);
        let ws1 = watch_list(vars1, l as int);
        assert(list_ok(ws0, l as int, clauses));
        assert forall|j: int| 0 <= j < ws0.len() implies (#[trigger] ws0[j]) < cs.len() && watches(
            cs[ws0[j] as int],
            l as int,
        ) by {
            assert(cs[ws0[j] as int] == clauses[ws0[j] as int]);
        }
        if l == c.watched1 || l == c.watched2 {
            assert forall|i: int, j: int| 0 <= i < ws1.len() && 0 <= j < ws1.len() && i != j implies ws1[i]
                != ws1[j] by {
                if i < ws0.len() && j < ws0.len() {
                    assert(ws1[i] == ws0[i] && ws1[j] == ws0[j]);
                } else if i < ws0.len() {
                    assert(ws1[i] == ws0[i]);
                } else if j < ws0.len() {
                    assert(ws1[j] == ws0[j]);
                }
            }
            assert forall|j: int| 0 <= j < ws1.len() implies (#[trigger] ws1[j]) < cs.len() && watches(
                cs[ws1[j] as int],
                l as int,
            ) by {
                if j < ws0.len() {
                    assert(ws1[j] == ws0[j]);
                } else {
                    assert(ws1[j] == id);
                    assert(cs[id as int] == c);
                }
            }
        }
    }
}

/// Undoing an assignment restores what applying it changed: `apply_assignment` on an
/// unassigned variable sets its entry to the value, `undo_assignment` sets it back to none,
/// and every other entry keeps its value throughout.
pub proof fn law_undo_reverts_apply(a: Seq<Option<bool>>, i: int, value: bool)
    requires
        0 <= i < a.len(),
        a[i] is None,
    ensures
        a.update(i, Some(value)).update(i, None) == a,
        count_unset(a.update(i, Some(value)).update(i, None)) == count_unset(a),
{
    assert(a.update(i, Some(value)).update(i, None) =~= a);
}

#[derive(Debug, PartialEq, Clone)]
pub struct CnfFormula {
    pub clauses: Vec<Clause>,
    pub free_indices: Vec<usize>,
    pub current_id: usize,
    pub variables: Variables,
    pub unset_vars: usize,
    pub variable_count: usize,
    /// we store the variable assignments now in this assignments vector, as it makes the values
    /// lay closer to each other
    pub assignments: Vec<Option<bool>>,
    pub learned_clause_start: usize,
}

/// After a clause moved its watch away from the falsified literal and the watch lists of the
/// assigned variable dropped the moved clauses, every watched literal of a clause lists the
/// clause, but for the new watches, which are added next.
proof fn lemma_complete_after_retain(
    vars0: Seq<crate::cnf::variable::Variable>,
    vars1: Seq<crate::cnf::variable::Variable>,
    clauses0: Seq<Clause>,
    clauses1: Seq<Clause>,
    nw: Seq<(i32, ClauseID)>,
    var_id: u32,
)
    requires
        complete_watches(vars0, clauses0),
        clauses1.len() == clauses0.len(),
        clauses0.len() <= usize::MAX,
        vars1.len() == vars0.len(),
        forall|c: int|
            0 <= c < clauses0.len() && !in_new_watches(nw, c) ==> same_watches(#[trigger] clauses1[c], clauses0[c]),
        forall|j: int|
            0 <= j < nw.len() ==> {
                let (l, c) = #[trigger] nw[j];
                &&& c < clauses1.len()
                &&& clauses1[c as int].watched2 == l
                &&& watches(clauses0[c as int], clauses1[c as int].watched1 as int)
                &&& var_of(clauses1[c as int].watched1) != var_id
            },
        forall|l: i32|
            lit_ok(l) && 1 <= var_of(l) <= vars0.len() && var_of(l) != var_id ==> #[trigger] watch_list(vars1, l as int)
                == watch_list(vars0, l as int),
        forall|l: i32, x: ClauseID|
            lit_ok(l) && var_of(l) == var_id && #[trigger] watch_list(vars0, l as int).contains(x)
                && !in_new_watches(nw, x as int) ==> watch_list(vars1, l as int).contains(x),
    ensures
        forall|c: int, l: i32|
            #![trigger watches(clauses1[c], l as int), watch_list(vars1, l as int)]
            0 <= c < clauses1.len() && lit_ok(l) && 1 <= var_of(l) <= vars0.len() && watches(clauses1[c], l as int)
                ==> watch_list(vars1, l as int).contains(c as ClauseID) || exists|j: int|
                0 <= j < nw.len() && nw[j] == (l, c as ClauseID),
{
    assert forall|c: int, l: i32|
        #![trigger watches(clauses1[c], l as int), watch_list(vars1, l as int)]
        0 <= c < clauses1.len() && lit_ok(l) && 1 <= var_of(l) <= vars0.len() && watches(clauses1[c], l as int)
            implies watch_list(vars1, l as int).contains(c as ClauseID) || exists|j: int|
            0 <= j < nw.len() && nw[j] == (l, c as ClauseID) by {
        if in_new_watches(nw, c) {
            let j = choose|j: int| 0 <= j < nw.len() && nw[j].1 == c;
            let (nl, nc) = nw[j];
            assert(nc as int == c);
            if l != nl {
                let o = clauses1[c].watched1;
                assert(clauses1[c].watched2 == nl);
                assert(l == o);
                assert(watches(clauses0[c], o as int));
                assert(watch_list(vars0, o as int).contains(c as ClauseID));
                assert(var_of(o) != var_id);
                assert(watch_list(vars1, l as int) == watch_list(vars0, l as int));
            } else {
                assert(nw[j] == (l, c as ClauseID));
            }
        } else {
            assert(watches(clauses0[c], l as int));
            assert(watch_list(vars0, l as int).contains(c as ClauseID));
            assert((c as ClauseID) as int == c);
            if var_of(l) != var_id {
                assert(watch_list(vars1, l as int) == watch_list(vars0, l as int));
            }
        }
    }
}

/// Adding a new watch to its list keeps every other watch listed or still to be added.
proof fn lemma_complete_after_push(
    varsb: Seq<crate::cnf::variable::Variable>,
    varsa: Seq<crate::cnf::variable::Variable>,
    clauses1: Seq<Clause>,
    nw: Seq<(i32, ClauseID)>,
    k: int,
    n: nat,
)
    requires
        0 <= k < nw.len(),
        varsa.len() == varsb.len(),
        varsb.len() == n,
        forall|l: i32|
            #![trigger watch_list(varsa, l as int)]
            lit_ok(l) && 1 <= var_of(l) <= n ==> watch_list(varsa, l as int) == if l == nw[k].0 {
                watch_list(varsb, l as int).push(nw[k].1)
            } else {
                watch_list(varsb, l as int)
            },
        forall|c: int, l: i32|
            #![trigger watches(clauses1[c], l as int), watch_list(varsb, l as int)]
            0 <= c < clauses1.len() && lit_ok(l) && 1 <= var_of(l) <= n && watches(clauses1[c], l as int)
                ==> watch_list(varsb, l as int).contains(c as ClauseID) || exists|j: int|
                k <= j < nw.len() && nw[j] == (l, c as ClauseID),
    ensures
        forall|c: int, l: i32|
            #![trigger watches(clauses1[c], l as int), watch_list(varsa, l as int)]
            0 <= c < clauses1.len() && lit_ok(l) && 1 <= var_of(l) <= n && watches(clauses1[c], l as int)
                ==> watch_list(varsa, l as int).contains(c as ClauseID) || exists|j: int|
                k + 1 <= j < nw.len() && nw[j] == (l, c as ClauseID),
{
    assert forall|c: int, l: i32|
        #![trigger watches(clauses1[c], l as int), watch_list(varsa, l as int)]
        0 <= c < clauses1.len() && lit_ok(l) && 1 <= var_of(l) <= n && watches(clauses1[c], l as int)
            implies watch_list(varsa, l as int).contains(c as ClauseID) || exists|j: int|
            k + 1 <= j < nw.len() && nw[j] == (l, c as ClauseID) by {
        let wb = watch_list(varsb, l as int);
        let wa = watch_list(varsa, l as int);
        if wb.contains(c as ClauseID) {
            let x = choose|x: int| 0 <= x < wb.len() && wb[x] == c as ClauseID;
            if l == nw[k].0 {
                assert(wa[x] == wb[x]);
            }
        } else {
            let j = choose|j: int| k <= j < nw.len() && nw[j] == (l, c as ClauseID);
            if j == k {
                assert(wa == wb.push(nw[k].1));
                assert(wa[wb.len() as int] == c as ClauseID);
            }
        }
    }
}

/// After an assignment every clause that the falsified literal's watch list did not reach
/// keeps a watched literal that is not false; at a conflict, every clause does so under the
/// assignment before.
proof fn lemma_alive_after_apply(
    a0: Seq<Option<bool>>,
    a1: Seq<Option<bool>>,
    xi: int,
    falsified: i32,
    clauses0: Seq<Clause>,
    clauses1: Seq<Clause>,
    vars0: Seq<crate::cnf::variable::Variable>,
    ids: Seq<ClauseID>,
    processed: Seq<ClauseID>,
    conflict: Option<ClauseID>,
)
    requires
        0 <= xi < a0.len(),
        a0[xi] is None,
        a1 == a0.update(xi, Some(a1[xi]->0)),
        a1[xi] is Some,
        lit_ok(falsified),
        var_of(falsified) == xi + 1,
        xi + 1 <= vars0.len(),
        lit_false(a1, falsified),
        all_watches_alive(a0, clauses0),
        complete_watches(vars0, clauses0),
        ids == watch_list(vars0, falsified as int),
        clauses1.len() == clauses0.len(),
        forall|c: usize|
            c < clauses0.len() && !processed.contains(c) ==> #[trigger] clauses1[c as int] == clauses0[c as int],
        forall|c: usize|
            processed.contains(c) && conflict != Some(c) ==> watch_alive(a1, #[trigger] clauses1[c as int]),
        forall|x: ClauseID| #[trigger] processed.contains(x) ==> x < clauses0.len(),
        conflict matches Some(c) ==> c < clauses1.len() && clauses1[c as int].watched2 == falsified,
        conflict is None ==> processed == ids,
        clauses0.len() <= usize::MAX,
        forall|c: int| 0 <= c < clauses1.len() ==> clause_wf(#[trigger] clauses1[c], a0.len() as int),
    ensures
        conflict is None ==> all_watches_alive(a1, clauses1),
        conflict is Some ==> all_watches_alive(a0, clauses1),
{
    assert forall|c: int| 0 <= c < clauses1.len() implies (conflict is None ==> watch_alive(a1, #[trigger] clauses1[c]))
        && (conflict is Some ==> watch_alive(a0, clauses1[c])) by {
        let cu = c as ClauseID;
        assert(cu as int == c);
        if processed.contains(cu) {
            if conflict == Some(cu) {
                assert(!lit_false(a0, clauses1[c].watched2));
            } else {
                assert(watch_alive(a1, clauses1[c]));
                let cl = clauses1[c];
                assert(clause_wf(cl, a0.len() as int));
                let k1 = choose|k: int| 0 <= k < cl.literals@.len() && cl.literals@[k] == cl.watched1;
                let k2 = choose|k: int| 0 <= k < cl.literals@.len() && cl.literals@[k] == cl.watched2;
                assert(1 <= var_of(cl.literals@[k1]) <= a0.len());
                assert(1 <= var_of(cl.literals@[k2]) <= a0.len());
                if lit_false(a0, cl.watched1) {
                    assert(lit_false(a1, cl.watched1));
                }
                if lit_false(a0, cl.watched2) {
                    assert(lit_false(a1, cl.watched2));
                }
            }
        } else {
            assert(clauses1[c] == clauses0[c]);
            assert(watch_alive(a0, clauses0[c]));
            if conflict is None {
                let cl = clauses0[c];
                if watches(cl, falsified as int) {
                    assert(watch_list(vars0, falsified as int).contains(cu));
                    assert(processed.contains(cu));
                }
                if lit_false(a1, cl.watched1) && !lit_false(a0, cl.watched1) {
                    assert(var_of(cl.watched1) == xi + 1);
                }
                if lit_false(a1, cl.watched2) && !lit_false(a0, cl.watched2) {
                    assert(var_of(cl.watched2) == xi + 1);
                }
            }
        }
    }
}

impl CnfFormula {
    /// The formula is well formed: the variables, the assignment and the count of variables
    /// agree, the count of unset variables is right, every clause is well formed and every
    /// watch list is fine.
    pub open spec fn wf(&self) -> bool {
        &&& self.variables.0@.len() == self.variable_count
        &&& self.assignments@.len() == self.variable_count
        &&& self.variable_count < i32::MAX
        &&& self.unset_vars == count_unset(self.assignments@)
        &&& forall|c: int|
            0 <= c < self.clauses@.len() ==> clause_wf(
                #[trigger] self.clauses@[c],
                self.variable_count as int,
            )
        &&& watch_lists_ok(self.variables.0@, self.clauses@)
    }

    /// The literals of the clause with the given ID.
    pub open spec fn clause_lits(&self, c: int) -> Seq<i32> {
        self.clauses@[c].literals@
    }

    pub fn new(clauses: Vec<Clause>, variables: Variables) -> (r: Self)
        requires
            variables.0@.len() < i32::MAX,
            forall|c: int|
                0 <= c < clauses@.len() ==> clause_wf(#[trigger] clauses@[c], variables.0@.len() as int),
            watch_lists_ok(variables.0@, clauses@),
        ensures
            r.wf(),
            r.clauses@ == clauses@,
            r.variables == variables,
            r.variable_count == variables.0@.len(),
            r.assignments@ == Seq::new(variables.0@.len(), |i: int| None::<bool>),
            r.current_id == clauses@.len(),
            r.learned_clause_start == clauses@.len(),
            r.free_indices@.len() == 0,
    {
        let len = clauses.len();
        let n = variables.len();
        let assignments: Vec<Option<bool>> = vec![None; n];
        proof {
            assert(assignments@ =~= Seq::new(n as nat, |i: int| None::<bool>));
            lemma_count_unset_all_none(n as nat);
        }
        CnfFormula {
            current_id: len,
            free_indices: Vec::new(),
            learned_clause_start: len,
            clauses,
            unset_vars: n,
            assignments,
            variable_count: n,
            variables,
        }
    }

    /// Applies an assignment to this formula.
    ///
    /// # Arguments
    /// * `assignment` - The assignment to apply
    /// * `unit_queue` - If the assignment results in any unit clauses, add them to this queue
    ///
    /// # Returns
    /// `AssignmentResult::Success`, if the assignment was successful
    /// `AssignmentResult::Conflict`, if the assignment resulted in an unsatisfiable clause
    #[verifier::spinoff_prover]
    pub fn apply_assignment(
        &mut self,
        assignment: &Assignment,
        unit_queue: &mut VecDeque<ClauseID>,
    ) -> (r: AssignmentResult)
        requires
            old(self).wf(),
            1 <= assignment.variable_id <= old(self).variable_count,
            old(self).assignments@[assignment.variable_id - 1] != Some(!assignment.value),
        ensures
            final(self).wf(),
            final(self).assignments@ == old(self).assignments@.update(
                assignment.variable_id - 1,
                Some(assignment.value),
            ),
            final(self).clauses@.len() == old(self).clauses@.len(),
            forall|c: int|
                0 <= c < old(self).clauses@.len() ==> (#[trigger] final(self).clauses@[c]).literals@
                    == old(self).clauses@[c].literals@,
            final(self).variable_count == old(self).variable_count,
            final(self).free_indices == old(self).free_indices,
            final(self).current_id == old(self).current_id,
            final(self).learned_clause_start == old(self).learned_clause_start,
            old(self).assignments@[assignment.variable_id - 1] is Some ==> r == AssignmentResult::Success
                && *final(self) == *old(self) && final(unit_queue)@ == old(unit_queue)@,
            forall|c: int|
                0 <= c < old(self).clauses@.len() ==> (#[trigger] final(self).clauses@[c]).watched1
                    == old(self).clauses@[c].watched1 || lit_false(
                    final(self).assignments@,
                    old(self).clauses@[c].watched1,
                ),
            watches_sound(*old(self)) ==> watches_sound(*final(self)),
            watches_sound(*old(self)) && all_watches_alive(old(self).assignments@, old(self).clauses@) ==> match r {
                AssignmentResult::Success => all_watches_alive(final(self).assignments@, final(self).clauses@),
                AssignmentResult::Conflict(_) => all_watches_alive(old(self).assignments@, final(self).clauses@),
            },
            match r {
                AssignmentResult::Conflict(c) => c < final(self).clauses@.len() && clause_falsified(
                    final(self).assignments@,
                    final(self).clauses@[c as int].literals@,
                ),
                AssignmentResult::Success => true,
            },
            old(unit_queue)@.len() <= final(unit_queue)@.len(),
            final(unit_queue)@.subrange(0, old(unit_queue)@.len() as int) == old(unit_queue)@,
            forall|k: int|
                old(unit_queue)@.len() <= k < final(unit_queue)@.len() ==> {
                    let c = #[trigger] final(unit_queue)@[k];
                    &&& c < final(self).clauses@.len()
                    &&& clause_unit_on(
                        final(self).assignments@,
                        final(self).clauses@[c as int].literals@,
                        final(self).clauses@[c as int].watched1,
                    )
                },
            watches_sound(*old(self)) && old(self).assignments@[assignment.variable_id - 1] is None && r
                == AssignmentResult::Success ==> forall|c: int|
                0 <= c < old(self).clauses@.len() && #[trigger] watches(
                    old(self).clauses@[c],
                    made_false(assignment.variable_id as int, assignment.value),
                ) && final(self).clauses@[c].watched2 == made_false(
                    assignment.variable_id as int,
                    assignment.value,
                ) && lit_unassigned(final(self).assignments@, final(self).clauses@[c].watched1)
                    ==> final(unit_queue)@.subrange(old(unit_queue)@.len() as int, final(unit_queue)@.len() as int).contains(
                    c as ClauseID,
                ),
    {
        let var_id = assignment.variable_id;
        let var_index = (var_id - 1) as usize;

        match self.assignments[var_index] {
            Some(v) => {
                assert(self.assignments@[var_index as int] == Some(v));
                assert(v == assignment.value);
                assert(self.assignments@.update(var_index as int, Some(assignment.value))
                    =~= self.assignments@);
                return AssignmentResult::Success;
            },
            None => {
                proof {
                    lemma_count_unset_update(
                        self.assignments@,
                        var_index as int,
                        Some(assignment.value),
                    );
                }
                self.unset_vars = self.unset_vars - 1;
            },
        }
        self.assignments.set(var_index, Some(assignment.value));

        let ghost vars0 = self.variables.0@;
        let ghost clauses0 = self.clauses@;
        let ghost a1 = self.assignments@;
        let ghost q0 = unit_queue@;
        let ghost ws0 = watches_sound(*old(self));
        let ghost a0 = old(self).assignments@;
        assert(a1 == a0.update(var_index as int, Some(assignment.value)));
        assert(clauses0 == old(self).clauses@);
        assert(vars0 == old(self).variables.0@);
        let nvars = self.variable_count;
        let falsified_lit: i32 = if assignment.value {
            -(var_id as i32)
        } else {
            var_id as i32
        };
        proof {
            assert(lit_ok(falsified_lit) && var_of(falsified_lit) == var_id);
            assert(lit_false(a1, falsified_lit));
            assert(list_ok(watch_list(vars0, falsified_lit as int), falsified_lit as int, clauses0));
        }

        let (_, unsatisfied_clause_ids) = self.variables.0[var_index].associated_clauses(
            assignment.value,
        );
        let ghost ids = unsatisfied_clause_ids@;
        assert(ids == watch_list(vars0, falsified_lit as int));

        let mut is_conflict_id: Option<ClauseID> = None;
        let mut newly_watched: Vec<(Literal, ClauseID)> = Vec::new();
        let n = unsatisfied_clause_ids.len();
        let mut i: usize = 0;
        while i < n && is_conflict_id.is_none()
            invariant
                n == ids.len(),
                ids == unsatisfied_clause_ids@,
                i <= n,
                list_ok(ids, falsified_lit as int, clauses0),
                lit_ok(falsified_lit),
                lit_false(a1, falsified_lit),
                self.variables.0@ == vars0,
                self.assignments@ == a1,
                self.variable_count == nvars,
                self.unset_vars == count_unset(a1),
                self.free_indices == old(self).free_indices,
                self.current_id == old(self).current_id,
                self.learned_clause_start == old(self).learned_clause_start,
                a1.len() == nvars,
                vars0.len() == nvars,
                self.clauses@.len() == clauses0.len(),
                forall|c: int|
                    0 <= c < clauses0.len() ==> (#[trigger] self.clauses@[c]).literals@
                        == clauses0[c].literals@ && clause_wf(self.clauses@[c], nvars as int),
                forall|c: int|
                    0 <= c < clauses0.len() ==> (#[trigger] self.clauses@[c]).watched1 == clauses0[c].watched1
                        || clauses0[c].watched1 == falsified_lit,
                forall|c: int, l: int|
                    #![trigger watches(self.clauses@[c], l)]
                    #![trigger watches(clauses0[c], l)]
                    0 <= c < clauses0.len() && watches(clauses0[c], l) && l != falsified_lit
                        ==> watches(self.clauses@[c], l),
                forall|c: usize|
                    c < clauses0.len() && !ids.subrange(0, i as int).contains(c)
                        ==> #[trigger] self.clauses@[c as int] == clauses0[c as int],
                forall|j: int|
                    0 <= j < newly_watched@.len() ==> {
                        let (l, c) = #[trigger] newly_watched@[j];
                        &&& ids.subrange(0, i as int).contains(c)
                        &&& self.clauses@[c as int].watched2 == l
                        &&& lit_ok(l)
                        &&& 1 <= var_of(l) <= nvars
                        &&& !watches(clauses0[c as int], l as int)
                    },
                forall|a: int, b: int|
                    0 <= a < b < newly_watched@.len() ==> newly_watched@[a].1 != newly_watched@[b].1,
                forall|c: int|
                    0 <= c < clauses0.len() && watches(clauses0[c], falsified_lit as int) && !watches(
                        #[trigger] self.clauses@[c],
                        falsified_lit as int,
                    ) ==> exists|j: int|
                        0 <= j < newly_watched@.len() && (#[trigger] newly_watched@[j]).1 == c,
                q0.len() <= unit_queue@.len(),
                unit_queue@.subrange(0, q0.len() as int) == q0,
                forall|k: int|
                    q0.len() <= k < unit_queue@.len() ==> {
                        let c = #[trigger] unit_queue@[k];
                        &&& ids.subrange(0, i as int).contains(c)
                        &&& c < clauses0.len()
                        &&& clause_unit_on(
                            a1,
                            self.clauses@[c as int].literals@,
                            self.clauses@[c as int].watched1,
                        )
                    },
                match is_conflict_id {
                    Some(c) => ids.subrange(0, i as int).contains(c) && c < clauses0.len()
                        && clause_falsified(a1, self.clauses@[c as int].literals@)
                        && self.clauses@[c as int].watched2 == falsified_lit,
                    None => true,
                },
                ws0 == watches_sound(*old(self)),
                var_of(falsified_lit) == var_id,
                a0 == old(self).assignments@,
                a1 == a0.update(var_index as int, Some(assignment.value)),
                var_index == var_id - 1,
                clauses0 == old(self).clauses@,
                forall|c: int|
                    0 <= c < clauses0.len() && !in_new_watches(newly_watched@, c) ==> same_watches(
                        #[trigger] self.clauses@[c],
                        clauses0[c],
                    ),
                ws0 ==> forall|j: int|
                    0 <= j < newly_watched@.len() ==> {
                        let (l, c) = #[trigger] newly_watched@[j];
                        &&& watches(clauses0[c as int], self.clauses@[c as int].watched1 as int)
                        &&& var_of(self.clauses@[c as int].watched1) != var_id
                        &&& var_of(l) != var_id
                        &&& self.clauses@[c as int].watched1 != l
                    },
                forall|c: usize|
                    ids.subrange(0, i as int).contains(c) && is_conflict_id != Some(c) ==> watch_alive(
                        a1,
                        #[trigger] self.clauses@[c as int],
                    ),
                forall|c: usize|
                    #[trigger] ids.subrange(0, i as int).contains(c) && self.clauses@[c as int].watched2 == falsified_lit
                        && lit_unassigned(a1, self.clauses@[c as int].watched1) ==> unit_queue@.subrange(
                        q0.len() as int,
                        unit_queue@.len() as int,
                    ).contains(c),
                ws0 ==> forall|c: int| 0 <= c < clauses0.len() ==> watch_shape(#[trigger] self.clauses@[c]),
            decreases n - i,
        {
            let clause_id = unsatisfied_clause_ids[i];
            let ghost cl0 = clauses0[clause_id as int];
            let ghost nw0 = newly_watched@;
            let ghost cls_start = self.clauses@;
            let ghost uq0 = unit_queue@;
            let ghost sub0 = ids.subrange(0, i as int);
            let ghost sub1 = ids.subrange(0, i + 1);
            proof {
                assert(ids[i as int] == clause_id);
                assert(sub1 =~= sub0.push(clause_id));
                assert(!sub0.contains(clause_id)) by {
                    if sub0.contains(clause_id) {
                        let k = choose|k: int| 0 <= k < sub0.len() && sub0[k] == clause_id;
                        assert(ids[k] == ids[i as int]);
                    }
                }
                assert(clause_id < clauses0.len());
                assert(self.clauses@[clause_id as int] == cl0);
                assert(watches(cl0, falsified_lit as int));
                assert forall|x: usize| sub0.contains(x) implies sub1.contains(x) by {
                    let k = choose|k: int| 0 <= k < sub0.len() && sub0[k] == x;
                    assert(sub1[k] == x);
                }
            }
            i = i + 1;

            if self.clauses[clause_id].watched1 == falsified_lit {
                let w2 = self.clauses[clause_id].watched2;
                self.clauses[clause_id].watched2 = falsified_lit;
                self.clauses[clause_id].watched1 = w2;
            }
            // Invariant: watched2 is the literal that became false
            assert(self.clauses@[clause_id as int].watched2 == falsified_lit);
            let other = self.clauses[clause_id].watched1;
            let ghost cl_swapped = self.clauses@[clause_id as int];
            let ghost cls_swapped = self.clauses@;
            proof {
                assert(same_watches(cl_swapped, cl0));
                assert(!in_new_watches(nw0, clause_id as int)) by {
                    if in_new_watches(nw0, clause_id as int) {
                        let j = choose|j: int| 0 <= j < nw0.len() && nw0[j].1 == clause_id as int;
                        assert(sub0.contains(nw0[j].1));
                    }
                }
                assert forall|c: int| 0 <= c < clauses0.len() && c != clause_id implies #[trigger] cls_swapped[c]
                    == cls_start[c] by {
                }
                assert(self.clauses@[clause_id as int].literals@ == cl0.literals@);
                assert(clause_wf(self.clauses@[clause_id as int], nvars as int));
                assert(cl0.literals@.contains(other));
                let ko = choose|k: int| 0 <= k < cl0.literals@.len() && cl0.literals@[k] == other;
                assert(lit_ok(cl0.literals@[ko]) && 1 <= var_of(cl0.literals@[ko]) <= nvars);
            }
            let other_id = (lit_var(other) - 1) as usize;
            let other_true = match self.assignments[other_id] {
                Some(v) => v == (other > 0),
                None => false,
            };
            if !other_true {
                match find_new_watch(&self.clauses[clause_id].literals, other, &self.assignments) {
                    Some(lit) => {
                        proof {
                            let kl = choose|k: int|
                                0 <= k < cl0.literals@.len() && cl0.literals@[k] == lit;
                            assert(lit_ok(cl0.literals@[kl]) && 1 <= var_of(cl0.literals@[kl]) <= nvars);
                            assert(lit != falsified_lit);
                        }
                        proof {
                            if ws0 {
                                let cl = cl0;
                                assert(non_tautological(old(self).clauses@[clause_id as int]));
                                assert(watch_shape(old(self).clauses@[clause_id as int]));
                                assert(cl.literals@.contains(falsified_lit)) by {
                                    assert(clause_wf(cl_swapped, nvars as int));
                                }
                                let kf = choose|k: int| 0 <= k < cl.literals@.len() && cl.literals@[k] == falsified_lit;
                                let ko = choose|k: int| 0 <= k < cl.literals@.len() && cl.literals@[k] == other;
                                let kl = choose|k: int| 0 <= k < cl.literals@.len() && cl.literals@[k] == lit;
                                assert(cl.literals@[ko] != -cl.literals@[kf]);
                                assert(cl.literals@[kl] != -cl.literals@[kf]);
                                assert(lit != falsified_lit);
                                if other == falsified_lit {
                                    assert(cl0.watched1 == cl0.watched2);
                                    assert(cl.literals@[kl] == cl0.watched1);
                                }
                                assert(other != falsified_lit);
                                assert(lit_ok(other) && lit_ok(lit));
                                if var_of(other) == var_id {
                                    lemma_same_var(other, falsified_lit);
                                }
                                if var_of(lit) == var_id {
                                    lemma_same_var(lit, falsified_lit);
                                }
                                assert(watches(cl0, other as int));
                            }
                        }
                        newly_watched.push((lit, clause_id));
                        self.clauses[clause_id].watched2 = lit;
                        proof {
                            assert(newly_watched@[newly_watched@.len() - 1] == (lit, clause_id));
                            assert forall|j: int| 0 <= j < newly_watched@.len() implies {
                                let (l, c) = #[trigger] newly_watched@[j];
                                &&& sub1.contains(c)
                                &&& self.clauses@[c as int].watched2 == l
                                &&& lit_ok(l)
                                &&& 1 <= var_of(l) <= nvars
                                &&& !watches(clauses0[c as int], l as int)
                            } by {
                                if j < nw0.len() {
                                    assert(newly_watched@[j] == nw0[j]);
                                    assert(nw0[j].1 != clause_id);
                                } else {
                                    assert(sub1[i - 1] == clause_id);
                                }
                            }
                            assert forall|a: int, b: int|
                                0 <= a < b < newly_watched@.len() implies newly_watched@[a].1
                                != newly_watched@[b].1 by {
                                if b == newly_watched@.len() - 1 {
                                    assert(newly_watched@[a] == nw0[a]);
                                    assert(sub0.contains(nw0[a].1));
                                }
                            }
                            assert forall|c: int|
                                0 <= c < clauses0.len() && watches(clauses0[c], falsified_lit as int)
                                    && !watches(#[trigger] self.clauses@[c], falsified_lit as int)
                                    implies exists|j: int|
                                0 <= j < newly_watched@.len() && (#[trigger] newly_watched@[j]).1
                                    == c by {
                                if c == clause_id {
                                    assert(newly_watched@[newly_watched@.len() - 1].1 == c);
                                } else {
                                    let j = choose|j: int|
                                        0 <= j < nw0.len() && (#[trigger] nw0[j]).1 == c;
                                    assert(newly_watched@[j] == nw0[j]);
                                }
                            }
                        }
                    },
                    None => {
                let other_unassigned = self.assignments[other_id].is_none();
                if other_unassigned {
                    unit_queue.push_back(clause_id);
                    proof {
                        assert(unit_queue@.subrange(0, q0.len() as int) =~= uq0.subrange(
                            0,
                            q0.len() as int,
                        ));
                        assert forall|k: int| q0.len() <= k < unit_queue@.len() implies {
                            let c = #[trigger] unit_queue@[k];
                            &&& sub1.contains(c)
                            &&& c < clauses0.len()
                            &&& clause_unit_on(
                                a1,
                                self.clauses@[c as int].literals@,
                                self.clauses@[c as int].watched1,
                            )
                        } by {
                            if k < uq0.len() {
                                assert(unit_queue@[k] == uq0[k]);
                            } else {
                                assert(sub1[i - 1] == clause_id);
                            }
                        }
                    }
                } else {
                    is_conflict_id = Some(clause_id);
                    proof {
                        assert(sub1[i - 1] == clause_id);
                    }
                }
                    },
                }
            }
            proof {
                let nw1 = newly_watched@;
                assert(nw1.len() == nw0.len() || (nw1.len() == nw0.len() + 1 && nw1[nw0.len() as int].1
                    == clause_id));
                assert(nw1.len() == nw0.len() ==> self.clauses@[clause_id as int] == cl_swapped);
                assert forall|j: int| 0 <= j < nw0.len() implies nw1[j] == nw0[j] by {
                }
                assert forall|c: int| 0 <= c < clauses0.len() && c != clause_id implies #[trigger] self.clauses@[c]
                    == cls_start[c] by {
                }
                assert forall|c: int|
                    0 <= c < clauses0.len() && !in_new_watches(nw1, c) implies same_watches(
                    #[trigger] self.clauses@[c],
                    clauses0[c],
                ) by {
                    if c != clause_id {
                        if in_new_watches(nw0, c) {
                            let j = choose|j: int| 0 <= j < nw0.len() && nw0[j].1 == c;
                            assert(nw1[j] == nw0[j]);
                        }
                    } else {
                        if nw1.len() != nw0.len() {
                            assert(nw1[nw0.len() as int].1 == c);
                        }
                    }
                }
                if ws0 {
                    assert forall|j: int| 0 <= j < nw1.len() implies {
                        let (l, c) = #[trigger] nw1[j];
                        &&& watches(clauses0[c as int], self.clauses@[c as int].watched1 as int)
                        &&& var_of(self.clauses@[c as int].watched1) != var_id
                        &&& var_of(l) != var_id
                        &&& self.clauses@[c as int].watched1 != l
                    } by {
                        if j < nw0.len() {
                            assert(nw1[j] == nw0[j]);
                            let (l, c) = nw0[j];
                            assert(sub0.contains(c));
                            assert(c != clause_id);
                        }
                    }
                }
            }
            proof {
                assert(sub1[i - 1] == clause_id);
                assert(ids.subrange(0, i as int) == sub1);
                assert forall|c: usize|
                    #[trigger] sub1.contains(c) && self.clauses@[c as int].watched2 == falsified_lit
                        && lit_unassigned(a1, self.clauses@[c as int].watched1) implies unit_queue@.subrange(
                        q0.len() as int,
                        unit_queue@.len() as int,
                    ).contains(c) by {
                    let qs0 = uq0.subrange(q0.len() as int, uq0.len() as int);
                    let qs1 = unit_queue@.subrange(q0.len() as int, unit_queue@.len() as int);
                    assert(uq0.len() <= unit_queue@.len());
                    assert(forall|k: int| 0 <= k < uq0.len() ==> unit_queue@[k] == uq0[k]);
                    if c != clause_id {
                        let k = choose|k: int| 0 <= k < sub1.len() && sub1[k] == c;
                        assert(k < i - 1);
                        assert(sub0[k] == c);
                        assert(self.clauses@[c as int] == cls_start[c as int]);
                        assert(qs0.contains(c));
                        let w = choose|w: int| 0 <= w < qs0.len() && qs0[w] == c;
                        assert(qs1[w] == c);
                    } else {
                        assert(unit_queue@[unit_queue@.len() - 1] == clause_id);
                        assert(qs1[qs1.len() - 1] == clause_id);
                    }
                }
                assert forall|c: usize|
                    c < clauses0.len() && !ids.subrange(0, i as int).contains(c) implies #[trigger] self.clauses@[c as int]
                    == clauses0[c as int] by {
                    assert(ids.subrange(0, i as int) == sub1);
                    if sub0.contains(c) {
                        assert(sub1.contains(c));
                    }
                    assert(c != clause_id);
                }
            }
        }

        let mut unsat_clauses_set: FxHashSet<ClauseID> = FxHashSet::default();
        let nn = newly_watched.len();
        let mut j: usize = 0;
        while j < nn
            invariant
                nn == newly_watched@.len(),
                j <= nn,
                forall|x: usize|
                    unsat_clauses_set@.contains(x) <==> exists|k: int|
                        0 <= k < j && (#[trigger] newly_watched@[k]).1 == x,
            decreases nn - j,
        {
            let (_, cid) = newly_watched[j];
            fx_set_insert(&mut unsat_clauses_set, cid);
            proof {
                assert forall|x: usize|
                    unsat_clauses_set@.contains(x) <==> exists|k: int|
                        0 <= k < j + 1 && (#[trigger] newly_watched@[k]).1 == x by {
                    if x == cid {
                        assert(newly_watched@[j as int].1 == x);
                    }
                }
            }
            j = j + 1;
        }

        let ghost clauses1 = self.clauses@;
        let ghost processed = ids.subrange(0, i as int);
        let ghost conflict = is_conflict_id;
        proof {
            if is_conflict_id is None {
                assert(i == n);
                assert(processed =~= ids);
            }
            assert(forall|c: usize|
                c < clauses0.len() && !processed.contains(c) ==> #[trigger] clauses1[c as int] == clauses0[c as int]);
            assert(forall|c: usize|
                processed.contains(c) && conflict != Some(c) ==> watch_alive(a1, #[trigger] clauses1[c as int]));
            assert(ws0 ==> forall|c: int| 0 <= c < clauses0.len() ==> watch_shape(#[trigger] clauses1[c]));
            assert(forall|c: int| 0 <= c < clauses0.len() ==> (#[trigger] clauses1[c]).literals@ == clauses0[c].literals@);
            assert(forall|c: int| 0 <= c < clauses0.len() ==> (#[trigger] clauses1[c]).watched1 == clauses0[c].watched1
                || clauses0[c].watched1 == falsified_lit);
        }
        let kept_pos = retain_not_in(
            &self.variables.0[var_index].positive_watched_occurrences,
            &unsat_clauses_set,
        );
        let kept_neg = retain_not_in(
            &self.variables.0[var_index].negative_watched_occurrences,
            &unsat_clauses_set,
        );
        self.variables.0[var_index].positive_watched_occurrences = kept_pos;
        self.variables.0[var_index].negative_watched_occurrences = kept_neg;
        proof {
            let vars1 = self.variables.0@;
            assert forall|l: i32| lit_ok(l) && 1 <= var_of(l) <= vars1.len() implies list_ok(
                #[trigger] watch_list(vars1, l as int),
                l as int,
                clauses1,
            ) by {
                let w0 = watch_list(vars0, l as int);
                let w1 = watch_list(vars1, l as int);
                assert(list_ok(w0, l as int, clauses0));
                if var_of(l) == var_id {
                    assert forall|k: int| 0 <= k < w1.len() implies (#[trigger] w1[k])
                        < clauses1.len() && watches(clauses1[w1[k] as int], l as int) by {
                        let x = w1[k];
                        assert(w0.contains(x) && !unsat_clauses_set@.contains(x));
                        let k0 = choose|k0: int| 0 <= k0 < w0.len() && w0[k0] == x;
                        assert(watches(clauses0[x as int], l as int));
                        if l as int == falsified_lit as int {
                            if !watches(clauses1[x as int], l as int) {
                                let jj = choose|jj: int|
                                    0 <= jj < newly_watched@.len() && (#[trigger] newly_watched@[jj]).1
                                        == x;
                                assert(unsat_clauses_set@.contains(x));
                            }
                        }
                    }
                } else {
                    assert(w1 == w0);
                    assert forall|k: int| 0 <= k < w1.len() implies (#[trigger] w1[k])
                        < clauses1.len() && watches(clauses1[w1[k] as int], l as int) by {
                        assert(w0[k] < clauses0.len());
                    }
                }
            }
        }

        proof {
            let vars1 = self.variables.0@;
            assert forall|j: int| 0 <= j < nn implies {
                let (l, c) = #[trigger] newly_watched@[j];
                &&& c < clauses1.len()
                &&& clauses1[c as int].watched2 == l
                &&& lit_ok(l)
                &&& 1 <= var_of(l) <= nvars
                &&& !watch_list(vars1, l as int).contains(c)
            } by {
                let (l, c) = newly_watched@[j];
                let sub = ids.subrange(0, i as int);
                let kk = choose|kk: int| 0 <= kk < sub.len() && sub[kk] == c;
                assert(ids[kk] == c);
                let w0 = watch_list(vars0, l as int);
                let w1 = watch_list(vars1, l as int);
                assert(list_ok(w0, l as int, clauses0));
                if w1.contains(c) {
                    let x = choose|x: int| 0 <= x < w1.len() && w1[x] == c;
                    if var_of(l) == var_id {
                        assert(w0.contains(c));
                    } else {
                        assert(w1 == w0);
                    }
                    let y = choose|y: int| 0 <= y < w0.len() && w0[y] == c;
                    assert(watches(clauses0[c as int], l as int));
                }
            }
        }

        proof {
            if ws0 {
                let vars1 = self.variables.0@;
                assert forall|l: i32| lit_ok(l) && 1 <= var_of(l) <= nvars && var_of(l) != var_id implies #[trigger] watch_list(
                    vars1,
                    l as int,
                ) == watch_list(vars0, l as int) by {
                }
                assert forall|l: i32, x: ClauseID|
                    lit_ok(l) && var_of(l) == var_id && #[trigger] watch_list(vars0, l as int).contains(x)
                        && !in_new_watches(newly_watched@, x as int) implies watch_list(
                    vars1,
                    l as int,
                ).contains(x) by {
                    assert(!unsat_clauses_set@.contains(x)) by {
                        if unsat_clauses_set@.contains(x) {
                            let k0 = choose|k0: int| 0 <= k0 < nn && (#[trigger] newly_watched@[k0]).1 == x;
                        }
                    }
                }
                assert(clauses0.len() == self.clauses.len());
                lemma_complete_after_retain(vars0, vars1, clauses0, clauses1, newly_watched@, var_id);
            }
        }
        let mut k: usize = 0;
        while k < nn
            invariant
                nn == newly_watched@.len(),
                k <= nn,
                ws0 == watches_sound(*old(self)),
                ws0 ==> forall|c: int, l: i32|
                    #![trigger watches(clauses1[c], l as int), watch_list(self.variables.0@, l as int)]
                    0 <= c < clauses1.len() && lit_ok(l) && 1 <= var_of(l) <= nvars && watches(
                        clauses1[c],
                        l as int,
                    ) ==> watch_list(self.variables.0@, l as int).contains(c as ClauseID) || exists|j: int|
                        k <= j < nn && newly_watched@[j] == (l, c as ClauseID),
                self.clauses@ == clauses1,
                self.assignments@ == a1,
                self.unset_vars == count_unset(a1),
                self.variable_count == nvars,
                self.free_indices == old(self).free_indices,
                self.current_id == old(self).current_id,
                self.learned_clause_start == old(self).learned_clause_start,
                self.variables.0@.len() == nvars,
                watch_lists_ok(self.variables.0@, clauses1),
                forall|j: int|
                    k <= j < nn ==> {
                        let (l, c) = #[trigger] newly_watched@[j];
                        &&& c < clauses1.len()
                        &&& clauses1[c as int].watched2 == l
                        &&& lit_ok(l)
                        &&& 1 <= var_of(l) <= nvars
                        &&& !watch_list(self.variables.0@, l as int).contains(c)
                    },
                forall|a: int, b: int|
                    0 <= a < b < newly_watched@.len() ==> newly_watched@[a].1 != newly_watched@[b].1,
            decreases nn - k,
        {
            let (lit, clause_id) = newly_watched[k];
            let ghost varsb = self.variables.0@;
            self.update_watchlists(lit, clause_id);
            proof {
                if ws0 {
                    lemma_complete_after_push(varsb, self.variables.0@, clauses1, newly_watched@, k as int, nvars as nat);
                }
                let varsa = self.variables.0@;
                assert forall|l: i32| lit_ok(l) && 1 <= var_of(l) <= varsa.len() implies list_ok(
                    #[trigger] watch_list(varsa, l as int),
                    l as int,
                    clauses1,
                ) by {
                    assert(list_ok(watch_list(varsb, l as int), l as int, clauses1));
                    if l == lit {
                        let w = watch_list(varsb, l as int);
                        assert(watch_list(varsa, l as int) == w.push(clause_id));
                        assert forall|x: int, y: int|
                            0 <= x < y < w.push(clause_id).len() implies w.push(clause_id)[x]
                            != w.push(clause_id)[y] by {
                            if y == w.len() {
                                assert(w.contains(w[x]));
                            }
                        }
                    }
                }
                assert forall|j: int| k + 1 <= j < nn implies {
                    let (l, c) = #[trigger] newly_watched@[j];
                    &&& c < clauses1.len()
                    &&& clauses1[c as int].watched2 == l
                    &&& lit_ok(l)
                    &&& 1 <= var_of(l) <= nvars
                    &&& !watch_list(self.variables.0@, l as int).contains(c)
                } by {
                    let (l, c) = newly_watched@[j];
                    assert(newly_watched@[k as int].1 != c);
                    if l == lit {
                        let w = watch_list(varsb, l as int);
                        if w.push(clause_id).contains(c) {
                            let x = choose|x: int| 0 <= x < w.push(clause_id).len() && w.push(clause_id)[x] == c;
                            if x < w.len() {
                                assert(w[x] == c);
                            }
                        }
                    }
                }
            }
            k = k + 1;
        }

        proof {
            if ws0 {
                assert(complete_watches(self.variables.0@, clauses1));
                assert forall|c: int| 0 <= c < clauses1.len() implies non_tautological(#[trigger] clauses1[c]) by {
                    assert(non_tautological(clauses0[c]));
                    assert(clauses1[c].literals@ == clauses0[c].literals@);
                }
                if all_watches_alive(a0, clauses0) {
                    assert forall|c: int| 0 <= c < clauses1.len() implies clause_wf(#[trigger] clauses1[c], a0.len() as int) by {
                        assert(clause_wf(self.clauses@[c], nvars as int));
                    }
                    lemma_alive_after_apply(
                        a0,
                        a1,
                        var_index as int,
                        falsified_lit,
                        clauses0,
                        clauses1,
                        vars0,
                        ids,
                        processed,
                        conflict,
                    );
                }
            }
        }
        if let Some(cid) = is_conflict_id {
            AssignmentResult::Conflict(cid)
        } else {
            AssignmentResult::Success
        }
    }

    /// Adds `clause_id` to the watch list of `lit`.
    fn update_watchlists(&mut self, lit: i32, clause_id: usize)
        requires
            lit_ok(lit),
            1 <= var_of(lit) <= old(self).variables.0@.len(),
        ensures
            final(self).variables.0@.len() == old(self).variables.0@.len(),
            forall|l: i32|
                #![trigger watch_list(final(self).variables.0@, l as int)]
                lit_ok(l) && 1 <= var_of(l) <= old(self).variables.0@.len() ==> watch_list(
                    final(self).variables.0@,
                    l as int,
                ) == if l == lit {
                    watch_list(old(self).variables.0@, l as int).push(clause_id)
                } else {
                    watch_list(old(self).variables.0@, l as int)
                },
            final(self).clauses == old(self).clauses,
            final(self).assignments == old(self).assignments,
            final(self).unset_vars == old(self).unset_vars,
            final(self).variable_count == old(self).variable_count,
            final(self).free_indices == old(self).free_indices,
            final(self).current_id == old(self).current_id,
            final(self).learned_clause_start == old(self).learned_clause_start,
    {
        let id = lit_var(lit);
        if lit > 0 {
            self.variables.get_mut(id).positive_watched_occurrences.push(clause_id);
        } else {
            self.variables.get_mut(id).negative_watched_occurrences.push(clause_id);
        }
    }

    /// Undoes an assignment: the variable becomes unassigned.
    pub fn undo_assignment(&mut self, assignment: &Assignment)
        requires
            old(self).wf(),
            1 <= assignment.variable_id <= old(self).variable_count,
        ensures
            final(self).wf(),
            final(self).assignments@ == old(self).assignments@.update(
                assignment.variable_id - 1,
                None,
            ),
            final(self).clauses == old(self).clauses,
            final(self).variables == old(self).variables,
            final(self).variable_count == old(self).variable_count,
            final(self).free_indices == old(self).free_indices,
            final(self).current_id == old(self).current_id,
            final(self).learned_clause_start == old(self).learned_clause_start,
    {
        let idx = (assignment.variable_id - 1) as usize;
        proof {
            lemma_count_unset_update(self.assignments@, idx as int, None);
            lemma_count_unset_bounds(self.assignments@.update(idx as int, None));
        }
        if self.assignments[idx].is_some() {
            self.assignments.set(idx, None);
            self.unset_vars = self.unset_vars + 1;
        } else {
            assert(self.assignments@.update(idx as int, None) =~= self.assignments@);
        }
    }

    /// Checks if all variables are assigned.
    pub fn all_assigned(&self) -> (r: bool)
        requires
            self.wf(),
        ensures
            r == forall|i: int| 0 <= i < self.assignments@.len() ==> self.assignments@[i] is Some,
    {
        proof {
            lemma_count_unset_bounds(self.assignments@);
        }
        self.unset_vars == 0
    }

    /// Whether the clause at `c` is unit: one literal is unassigned and every other literal is
    /// false.
    fn clause_is_unit(&self, c: usize) -> (r: bool)
        requires
            self.wf(),
            c < self.clauses@.len(),
        ensures
            r == is_unit_clause(self.assignments@, self.clauses@[c as int].literals@),
    {
        let ghost a = self.assignments@;
        let ghost lits = self.clauses@[c as int].literals@;
        proof {
            assert(clause_wf(self.clauses@[c as int], self.variable_count as int));
        }
        let literals = &self.clauses[c].literals;
        let n = literals.len();
        let mut cand: Option<i32> = None;
        let mut ok = true;
        let mut j: usize = 0;
        while j < n
            invariant
                self.wf(),
                lits == literals@,
                a == self.assignments@,
                n == lits.len(),
                lits_in_range(lits, self.variable_count as int),
                j <= n,
                ok && cand is None ==> forall|i: int| 0 <= i < j ==> lit_false(a, #[trigger] lits[i]),
                cand matches Some(w) ==> lits.subrange(0, j as int).contains(w) && !lit_false(a, w),
                ok ==> forall|i: int| 0 <= i < j ==> !lit_true(a, #[trigger] lits[i]),
                ok ==> forall|i: int| 0 <= i < j && !lit_false(a, #[trigger] lits[i]) ==> cand == Some(lits[i]),
                !ok ==> !is_unit_clause(a, lits),
            decreases n - j,
        {
            let l = literals.get(j);
            let value = self.assignments[(lit_var(l) - 1) as usize];
            let is_false = match value {
                Some(b) => b != (l > 0),
                None => false,
            };
            let is_true = match value {
                Some(b) => b == (l > 0),
                None => false,
            };
            assert(lits[j as int] == l);
            if is_true {
                proof {
                    if is_unit_clause(a, lits) {
                        let w = choose|w: i32| clause_unit_on(a, lits, w);
                        if l != w {
                            assert(lit_false(a, lits[j as int]));
                        }
                    }
                }
                ok = false;
            } else if !is_false {
                match cand {
                    None => {
                        cand = Some(l);
                    },
                    Some(w) => {
                        if w != l {
                            proof {
                                if is_unit_clause(a, lits) {
                                    let u = choose|u: i32| clause_unit_on(a, lits, u);
                                    let k = choose|k: int| 0 <= k < j && lits.subrange(0, j as int)[k] == w;
                                    assert(lits[k] == w);
                                    if w != u {
                                        assert(lit_false(a, lits[k]));
                                    } else {
                                        assert(lit_false(a, lits[j as int]));
                                    }
                                }
                            }
                            ok = false;
                        }
                    },
                }
            }
            proof {
                if let Some(w) = cand {
                    if lits.subrange(0, j as int).contains(w) {
                        let k = choose|k: int| 0 <= k < j && lits.subrange(0, j as int)[k] == w;
                        assert(lits.subrange(0, j + 1)[k] == w);
                    } else {
                        assert(lits.subrange(0, j + 1)[j as int] == w);
                    }
                }
            }
            j = j + 1;
        }
        proof {
            assert(lits.subrange(0, n as int) =~= lits);
            if ok {
                if let Some(w) = cand {
                    assert(clause_unit_on(a, lits, w)) by {
                        assert forall|i: int| 0 <= i < lits.len() && lits[i] != w implies lit_false(a, #[trigger] lits[i]) by {
                            if !lit_false(a, lits[i]) {
                                assert(cand == Some(lits[i]));
                            }
                        }
                        assert(!lit_true(a, w)) by {
                            let k = choose|k: int| 0 <= k < n && lits.subrange(0, n as int)[k] == w;
                            assert(!lit_true(a, lits[k]));
                        }
                    }
                } else {
                    if is_unit_clause(a, lits) {
                        let u = choose|u: i32| clause_unit_on(a, lits, u);
                        let k = choose|k: int| 0 <= k < lits.len() && lits[k] == u;
                        assert(lit_false(a, lits[k]));
                    }
                }
            }
        }
        ok && cand.is_some()
    }

    /// Generates the unit queue of this formula: the IDs of its unit clauses (one literal
    /// unassigned, every other literal false), in ascending order. Since this call is expensive,
    /// it must only be executed once in the beginning.
    pub fn generate_unit_queue(&self) -> (r: VecDeque<ClauseID>)
        requires
            self.wf(),
        ensures
            forall|k: int| 0 <= k < r@.len() ==> (#[trigger] r@[k]) < self.clauses@.len(),
            forall|a: int, b: int| 0 <= a < b < r@.len() ==> r@[a] < r@[b],
            forall|c: int|
                0 <= c < self.clauses@.len() ==> (r@.contains(c as usize) <==> is_unit_clause(
                    self.assignments@,
                    #[trigger] self.clauses@[c].literals@,
                )),
    {
        let mut q: VecDeque<ClauseID> = VecDeque::new();
        let n = self.clauses.len();
        let mut i: usize = 0;
        while i < n
            invariant
                self.wf(),
                n == self.clauses@.len(),
                i <= n,
                forall|k: int| 0 <= k < q@.len() ==> (#[trigger] q@[k]) < i,
                forall|a: int, b: int| 0 <= a < b < q@.len() ==> q@[a] < q@[b],
                forall|c: int|
                    0 <= c < i ==> (q@.contains(c as usize) <==> is_unit_clause(
                        self.assignments@,
                        #[trigger] self.clauses@[c].literals@,
                    )),
            decreases n - i,
        {
            let ghost q0 = q@;
            if self.clause_is_unit(i) {
                q.push_back(i);
            }
            proof {
                assert forall|c: int| 0 <= c < i + 1 implies (q@.contains(c as usize) <==> is_unit_clause(
                    self.assignments@,
                    #[trigger] self.clauses@[c].literals@,
                )) by {
                    if q@.contains(c as usize) {
                        let k = choose|k: int| 0 <= k < q@.len() && q@[k] == c as usize;
                        if c < i {
                            assert(k < q0.len());
                            assert(q0[k] == c as usize);
                        }
                    }
                    if c < i && q0.contains(c as usize) {
                        let k = choose|k: int| 0 <= k < q0.len() && q0[k] == c as usize;
                        assert(q@[k] == c as usize);
                    }
                    if c == i && q0.contains(c as usize) {
                        let k = choose|k: int| 0 <= k < q0.len() && q0[k] == c as usize;
                        assert(q0[k] < i);
                    }
                    if c == i && is_unit_clause(self.assignments@, self.clauses@[c].literals@) {
                        assert(q@[q@.len() - 1] == c as usize);
                    }
                }
            }
            i = i + 1;
        }
        q
    }

    /// The next free clause ID: a freed one, if there is one, else a fresh one.
    pub fn get_next_clause_id(&mut self) -> (r: ClauseID)
        requires
            old(self).free_indices@.len() > 0 || old(self).current_id < usize::MAX,
        ensures
            old(self).free_indices@.len() == 0 ==> r == old(self).current_id && final(self).current_id
                == old(self).current_id + 1 && final(self).free_indices == old(self).free_indices,
            old(self).free_indices@.len() > 0 ==> r == old(self).free_indices@.last()
                && final(self).free_indices@ == old(self).free_indices@.drop_last()
                && final(self).current_id == old(self).current_id,
            final(self).clauses == old(self).clauses,
            final(self).variables == old(self).variables,
            final(self).assignments == old(self).assignments,
            final(self).unset_vars == old(self).unset_vars,
            final(self).variable_count == old(self).variable_count,
            final(self).learned_clause_start == old(self).learned_clause_start,
    {
        if self.free_indices.len() == 0 {
            let id = self.current_id;
            self.current_id = self.current_id + 1;
            return id;
        }
        self.free_indices.pop().unwrap()
    }

    /// The learned clauses (those from `learned_clause_start` on) whose IDs are among the freed
    /// ones, with their IDs, in ascending order of ID.
    pub fn get_learned_clauses(&self) -> (r: Vec<(ClauseID, &Clause)>)
        ensures
            forall|k: int|
                0 <= k < r@.len() ==> self.learned_clause_start <= (#[trigger] r@[k]).0 < self.clauses@.len()
                    && self.free_indices@.contains(r@[k].0) && *r@[k].1 == self.clauses@[r@[k].0 as int],
            forall|a: int, b: int| 0 <= a < b < r@.len() ==> r@[a].0 < r@[b].0,
            forall|c: usize|
                self.learned_clause_start <= c < self.clauses@.len() && self.free_indices@.contains(c)
                    ==> exists|k: int| 0 <= k < r@.len() && (#[trigger] r@[k]).0 == c,
    {
        let mut set: FxHashSet<usize> = FxHashSet::default();
        let nf = self.free_indices.len();
        let mut j: usize = 0;
        while j < nf
            invariant
                nf == self.free_indices@.len(),
                j <= nf,
                forall|x: usize| set@.contains(x) <==> self.free_indices@.subrange(0, j as int).contains(x),
            decreases nf - j,
        {
            fx_set_insert(&mut set, self.free_indices[j]);
            proof {
                assert forall|x: usize| set@.contains(x) <==> self.free_indices@.subrange(
                    0,
                    j + 1,
                ).contains(x) by {
                    let s1 = self.free_indices@.subrange(0, j + 1);
                    let s0 = self.free_indices@.subrange(0, j as int);
                    if s0.contains(x) {
                        let k = choose|k: int| 0 <= k < s0.len() && s0[k] == x;
                        assert(s1[k] == x);
                    }
                    if s1.contains(x) && x != self.free_indices@[j as int] {
                        let k = choose|k: int| 0 <= k < s1.len() && s1[k] == x;
                        assert(s0[k] == x);
                    }
                    assert(s1[j as int] == self.free_indices@[j as int]);
                }
            }
            j = j + 1;
        }
        assert(self.free_indices@.subrange(0, nf as int) =~= self.free_indices@);
        let mut r: Vec<(ClauseID, &Clause)> = Vec::new();
        let n = self.clauses.len();
        let mut i: usize = self.learned_clause_start;
        while i < n
            invariant
                n == self.clauses@.len(),
                self.learned_clause_start <= i,
                forall|x: usize| set@.contains(x) <==> self.free_indices@.contains(x),
                forall|k: int|
                    0 <= k < r@.len() ==> self.learned_clause_start <= (#[trigger] r@[k]).0 < i
                        && r@[k].0 < n
                        && self.free_indices@.contains(r@[k].0) && *r@[k].1 == self.clauses@[r@[k].0 as int],
                forall|a: int, b: int| 0 <= a < b < r@.len() ==> r@[a].0 < r@[b].0,
                forall|c: usize|
                    self.learned_clause_start <= c < i && c < n && self.free_indices@.contains(c)
                        ==> exists|k: int| 0 <= k < r@.len() && (#[trigger] r@[k]).0 == c,
            decreases n - i,
        {
            let ghost r0 = r@;
            if fx_set_contains(&set, i) {
                r.push((i, &self.clauses[i]));
                assert(r@[r@.len() - 1].0 == i);
            }
            proof {
                assert forall|c: usize|
                    self.learned_clause_start <= c < i + 1 && c < n && self.free_indices@.contains(c)
                        implies exists|k: int| 0 <= k < r@.len() && (#[trigger] r@[k]).0 == c by {
                    if c < i {
                        let k = choose|k: int| 0 <= k < r0.len() && (#[trigger] r0[k]).0 == c;
                        assert(r@[k] == r0[k]);
                    } else {
                        assert(r@[r@.len() - 1].0 == i);
                    }
                }
            }
            i = i + 1;
        }
        r
    }

    /// Marks a clause ID as free.
    pub fn delete_clause(&mut self, clause_id: usize)
        ensures
            final(self).free_indices@ == old(self).free_indices@.push(clause_id),
            final(self).clauses == old(self).clauses,
            final(self).variables == old(self).variables,
            final(self).assignments == old(self).assignments,
            final(self).unset_vars == old(self).unset_vars,
            final(self).variable_count == old(self).variable_count,
            final(self).current_id == old(self).current_id,
            final(self).learned_clause_start == old(self).learned_clause_start,
    {
        self.free_indices.push(clause_id);
    }
}


/// The texts of the clauses, one line each.
pub open spec fn clauses_text(cs: Seq<Clause>) -> Seq<char>
    decreases cs.len(),
{
    if cs.len() == 0 {
        Seq::empty()
    } else if cs.len() == 1 {
        crate::cnf::clause::clause_text(cs[0])
    } else {
        clauses_text(cs.drop_last()) + seq!['\n'] + crate::cnf::clause::clause_text(cs.last())
    }
}

/// The DIMACS text of a formula: the header with the counts of variables and clauses, then a
/// line for each clause.
pub open spec fn formula_text(f: CnfFormula) -> Seq<char> {
    seq!['p', ' ', 'c', 'n', 'f', ' '] + crate::text::decimal(f.variables.0@.len()) + seq![' ']
        + crate::text::decimal(f.clauses@.len()) + seq!['\n'] + clauses_text(f.clauses@)
}

impl CnfFormula {
    /// The formula in DIMACS: `p cnf`, the numbers of variables and of clauses, and a line
    /// for each clause.
    pub fn to_string(&self) -> (r: String)
        requires
            self.variables.0@.len() < u64::MAX,
            self.clauses@.len() < u64::MAX,
        ensures
            r@ == formula_text(*self),
    {
        let mut s = String::new();
        push_char(&mut s, 'p');
        push_char(&mut s, ' ');
        push_char(&mut s, 'c');
        push_char(&mut s, 'n');
        push_char(&mut s, 'f');
        push_char(&mut s, ' ');
        crate::text::push_decimal(&mut s, self.variables.len() as u64);
        push_char(&mut s, ' ');
        crate::text::push_decimal(&mut s, self.clauses.len() as u64);
        push_char(&mut s, '\n');
        let ghost head = s@;
        let n = self.clauses.len();
        let mut i: usize = 0;
        assert(self.clauses@.take(0) =~= Seq::<Clause>::empty());
        while i < n
            invariant
                n == self.clauses@.len(),
                i <= n,
                s@ == head + clauses_text(self.clauses@.take(i as int)),
            decreases n - i,
        {
            if i > 0 {
                push_char(&mut s, '\n');
            }
            self.clauses[i].push_text(&mut s);
            proof {
                let t1 = self.clauses@.take(i + 1);
                assert(t1.drop_last() =~= self.clauses@.take(i as int));
                assert(t1.last() == self.clauses@[i as int]);
                if i == 0 {
                    assert(clauses_text(t1) == crate::cnf::clause::clause_text(t1[0]));
                }
                assert(s@ =~= head + clauses_text(t1));
            }
            i = i + 1;
        }
        assert(self.clauses@.take(n as int) =~= self.clauses@);
        assert(s@ =~= formula_text(*self));
        s
    }
}

impl CnfFormula {
    /// A view of the assigned variables.
    pub fn get_assignment_view(&self) -> (r: AssignedVarsView<'_>)
        ensures
            *r.0 == self.variables,
            r.1@ == self.assignments@,
    {
        AssignedVarsView(&self.variables, self.assignments.as_slice())
    }
}

/// The variables of a formula together with their values.
pub struct AssignedVarsView<'a>(pub &'a Variables, pub &'a [Option<bool>]);

/// The assigned variables among the first `n`, each with its sign, one space between two of
/// them.
pub open spec fn assigned_text(a: Seq<Option<bool>>, n: nat) -> Seq<char>
    decreases n,
{
    if n == 0 {
        Seq::empty()
    } else {
        let prev = assigned_text(a, (n - 1) as nat);
        match a[n - 1] {
            None => prev,
            Some(v) => if prev.len() == 0 {
                signed_var(v, n)
            } else {
                prev + seq![' '] + signed_var(v, n)
            },
        }
    }
}

impl<'a> AssignedVarsView<'a> {
    /// The assigned variables in ascending order, each after a `-` when it is false, one
    /// space between two of them.
    pub fn to_string(&self) -> (r: String)
        requires
            self.1@.len() >= self.0.0@.len(),
            self.0.0@.len() < u64::MAX,
        ensures
            r@ == assigned_text(self.1@, self.0.0@.len()),
    {
        let n = self.0.0.len();
        let mut s = String::new();
        let mut written = false;
        let mut i: usize = 0;
        while i < n
            invariant
                n == self.0.0@.len(),
                n < u64::MAX,
                self.1@.len() >= n,
                i <= n,
                s@ == assigned_text(self.1@, i as nat),
                written == (s@.len() > 0),
            decreases n - i,
        {
            if let Some(v) = self.1[i] {
                let ghost prev = s@;
                if written {
                    push_char(&mut s, ' ');
                }
                push_signed(&mut s, v, (i + 1) as u64);
                written = true;
                proof {
                    assert(assigned_text(self.1@, (i + 1) as nat) == if prev.len() == 0 {
                        signed_var(v, (i + 1) as nat)
                    } else {
                        prev + seq![' '] + signed_var(v, (i + 1) as nat)
                    });
                    assert(s@ =~= assigned_text(self.1@, (i + 1) as nat));
                }
            }
            i = i + 1;
        }
        s
    }
}

} // verus!
