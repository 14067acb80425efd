use crate::cdcl::assignment::{Assignment, AssignmentResult};
use crate::cdcl::heuristics::{RestartHeuristic, SolverStats};
use crate::cdcl::implication_graph::{vars_from, DecisionLevel, ImplicationGraph};
use crate::cnf::clause::{clause_wf, Clause, ClauseID};
use crate::cnf::cnf_formula::{
    all_watches_alive, lemma_complete_watches_push, lemma_same_var, lemma_watch_lists_push, non_tautological,
    watch_shape, watches_sound, CnfFormula,
};
use crate::cnf::literals::{
    clause_falsified, clause_satisfied, lit_false, lit_ok, lit_unassigned, lit_var, lits_in_range, var_of, Literal,
    Literals,
};
use priority_queue::PriorityQueue;
use rustc_hash::FxHashMap;
use std::collections::VecDeque;
use vstd::prelude::*;

verus! {

#[verifier::external_type_specification]
#[verifier::external_body]
#[verifier::reject_recursive_types(I)]
#[verifier::reject_recursive_types(P)]
#[verifier::reject_recursive_types(H)]
pub struct ExPriorityQueue<I, P, H>(PriorityQueue<I, P, H>);

/// The items of a priority queue of literals, with their priorities.
pub uninterp spec fn pq_priorities(q: PriorityQueue<Literal, usize>) -> Map<Literal, usize>;

/// `PriorityQueue::from_iter` on pairs with distinct items: the queue holds exactly those
/// items with those priorities.
#[verifier::external_body]
fn pq_from_pairs(pairs: Vec<(Literal, usize)>) -> (q: PriorityQueue<Literal, usize>)
    requires
        forall|a: int, b: int| 0 <= a < b < pairs@.len() ==> pairs@[a].0 != pairs@[b].0,
    ensures
        pq_priorities(q).dom() == pairs@.map_values(|p: (Literal, usize)| p.0).to_set(),
        forall|k: int| 0 <= k < pairs@.len() ==> pq_priorities(q)[(#[trigger] pairs@[k]).0] == pairs@[k].1,
{
    pairs.into_iter().collect()
}

/// `PriorityQueue::get_priority`: the priority of the item, if the queue holds it.
#[verifier::external_body]
fn pq_get_priority(q: &PriorityQueue<Literal, usize>, item: Literal) -> (r: Option<usize>)
    ensures
        r == pq_priorities(*q).get(item),
{
    q.get_priority(&item).copied()
}

/// `PriorityQueue::change_priority`: an item that the queue holds gets the new priority;
/// nothing changes otherwise.
#[verifier::external_body]
fn pq_change_priority(q: &mut PriorityQueue<Literal, usize>, item: Literal, priority: usize)
    ensures
        pq_priorities(*old(q)).contains_key(item) ==> pq_priorities(*final(q)) == pq_priorities(
            *old(q),
        ).insert(item, priority),
        !pq_priorities(*old(q)).contains_key(item) ==> pq_priorities(*final(q)) == pq_priorities(
            *old(q),
        ),
{
    q.change_priority(&item, priority);
}

/// `PriorityQueue::clone` followed by `into_sorted_iter`: every item once, with its priority,
/// from the highest priority to the lowest (items of equal priority in an order left open).
#[verifier::external_body]
fn pq_sorted_items(q: &PriorityQueue<Literal, usize>) -> (r: Vec<(Literal, usize)>)
    ensures
        r@.len() == pq_priorities(*q).dom().len(),
        forall|k: int|
            0 <= k < r@.len() ==> pq_priorities(*q).contains_key((#[trigger] r@[k]).0) && r@[k].1
                == pq_priorities(*q)[r@[k].0],
        forall|l: Literal| pq_priorities(*q).contains_key(l) ==> exists|k: int| 0 <= k < r@.len() && (#[trigger] r@[k]).0 == l,
        forall|a: int, b: int| 0 <= a < b < r@.len() ==> r@[a].1 >= r@[b].1 && r@[a].0 != r@[b].0,
{
    q.clone().into_sorted_iter().collect()
}

/// `HashMap::insert` on a map with the Fx hasher.
#[verifier::external_body]
fn fx_map_insert(m: &mut FxHashMap<Literal, usize>, k: Literal, v: usize)
    ensures
        final(m)@ == old(m)@.insert(k, v),
{
    m.insert(k, v);
}

/// `HashMap::get` on a map with the Fx hasher.
#[verifier::external_body]
fn fx_map_get(m: &FxHashMap<Literal, usize>, k: Literal) -> (r: Option<usize>)
    ensures
        r == m@.get(k),
{
    m.get(&k).copied()
}

/// The literals of the variables `1..=n`.
pub open spec fn all_lits(n: int) -> Set<Literal> {
    Set::new(|l: Literal| lit_ok(l) && 1 <= var_of(l) <= n)
}

/// The trail agrees with the formula: its variables exist, occur once, carry the values the
/// formula assigns, are exactly the assigned variables, and their reasons are clauses.
#[verifier::opaque]
pub open spec fn trail_ok(t: Seq<Assignment>, f: CnfFormula) -> bool {
    &&& forall|k: int| 0 <= k < t.len() ==> 1 <= (#[trigger] t[k]).variable_id <= f.variable_count
    &&& forall|k: int|
        0 <= k < t.len() ==> f.assignments@[(#[trigger] t[k]).variable_id - 1] == Some(t[k].value)
    &&& forall|i: int, j: int| 0 <= i < j < t.len() ==> t[i].variable_id != t[j].variable_id
    &&& forall|v: int|
        0 <= v < f.variable_count && (#[trigger] f.assignments@[v]) is Some ==> exists|k: int|
            0 <= k < t.len() && t[k].variable_id == v + 1
    &&& forall|k: int|
        0 <= k < t.len() ==> match (#[trigger] t[k]).reason {
            Some(c) => c < f.clauses@.len(),
            None => true,
        }
}


/// Keeping the literals of every clause keeps them free of repeats.
pub proof fn lemma_no_repeats_kept(c0: Seq<Clause>, c1: Seq<Clause>)
    requires
        clauses_no_repeats(c0),
        c1.len() == c0.len(),
        forall|c: int| 0 <= c < c0.len() ==> (#[trigger] c1[c]).literals@ == c0[c].literals@,
    ensures
        clauses_no_repeats(c1),
{
    reveal(clauses_no_repeats);
    assert forall|c: int| 0 <= c < c1.len() implies (#[trigger] c1[c]).literals@.no_duplicates() by {
        assert(c0[c].literals@.no_duplicates());
    }
}

/// Each clause of a formula without repeats has none.
pub proof fn lemma_no_repeats_at(cls: Seq<Clause>, c: int)
    requires
        clauses_no_repeats(cls),
        0 <= c < cls.len(),
    ensures
        cls[c].literals@.no_duplicates(),
{
    reveal(clauses_no_repeats);
}

/// Adding a clause without repeats keeps every clause free of them.
pub proof fn lemma_no_repeats_push(c0: Seq<Clause>, c1: Seq<Clause>)
    requires
        clauses_no_repeats(c0),
        c1.len() == c0.len() + 1,
        forall|c: int| 0 <= c < c0.len() ==> #[trigger] c1[c] == c0[c],
        c1[c0.len() as int].literals@.no_duplicates(),
    ensures
        clauses_no_repeats(c1),
{
    reveal(clauses_no_repeats);
    assert forall|c: int| 0 <= c < c1.len() implies (#[trigger] c1[c]).literals@.no_duplicates() by {
        if c < c0.len() {
            assert(c0[c].literals@.no_duplicates());
        }
    }
}

/// The trail holds each variable at most once.
pub proof fn lemma_trail_distinct(t: Seq<Assignment>, f: CnfFormula)
    requires
        trail_ok(t, f),
    ensures
        crate::cdcl::conflict_analysis::trail_distinct(t),
{
    reveal(trail_ok);
}

/// The variables of a false clause stand on the trail.
pub proof fn lemma_false_on_trail(t: Seq<Assignment>, f: CnfFormula, lits: Seq<i32>)
    requires
        trail_ok(t, f),
        f.assignments@.len() == f.variable_count,
        clause_falsified(f.assignments@, lits),
        lits_in_range(lits, f.variable_count as int),
    ensures
        crate::cdcl::conflict_analysis::all_on_trail(t, lits),
{
    reveal(trail_ok);
    let a = f.assignments@;
    assert forall|j: int| 0 <= j < lits.len() implies crate::cdcl::implication_graph::first_position(
        t,
        var_of(#[trigger] lits[j]),
    ) is Some by {
        assert(lit_false(a, lits[j]));
        let v = var_of(lits[j]) - 1;
        assert(0 <= v < f.variable_count);
        assert(a[v] is Some);
        let k = choose|k: int| 0 <= k < t.len() && t[k].variable_id == v + 1;
    }
}

/// A false clause that keeps a watched literal alive once the last trail entry is undone has
/// a literal of the current decision level.
pub proof fn lemma_conflict_current(t: Seq<Assignment>, st: Seq<usize>, a: Seq<Option<bool>>, cl: Clause, n: int)
    requires
        t.len() > 0,
        st.len() > 0,
        st.last() < t.len(),
        a.len() == n,
        1 <= t.last().variable_id <= n,
        clause_wf(cl, n),
        clause_falsified(a, cl.literals@),
        crate::cnf::cnf_formula::watch_alive(a.update(t.last().variable_id - 1, None), cl),
    ensures
        crate::cdcl::conflict_analysis::count_on(cl.literals@, crate::cdcl::conflict_analysis::current_level_vars(t, st))
            >= 1,
{
    let cur = crate::cdcl::conflict_analysis::current_level_vars(t, st);
    let x = t.last().variable_id - 1;
    let a2 = a.update(x, None);
    let w = if !lit_false(a2, cl.watched1) {
        cl.watched1
    } else {
        cl.watched2
    };
    let kw = choose|k: int| 0 <= k < cl.literals@.len() && cl.literals@[k] == w;
    assert(lit_false(a, cl.literals@[kw]));
    assert(1 <= var_of(cl.literals@[kw]) <= n);
    assert(var_of(w) - 1 == x);
    let big = st.last() as int;
    assert(t.subrange(big, t.len() as int)[t.len() - 1 - big].variable_id == cur[t.len() - 1 - big]);
    assert(cur.contains(var_of(cl.literals@[kw]) as crate::cnf::literals::VariableId));
    crate::cdcl::conflict_analysis::lemma_count_positive(cl.literals@, cur, kw);
}

/// What the agreement of the trail says of one of its entries.
pub proof fn lemma_trail_entry(t: Seq<Assignment>, f: CnfFormula, k: int)
    requires
        trail_ok(t, f),
        0 <= k < t.len(),
    ensures
        1 <= t[k].variable_id <= f.variable_count,
        f.assignments@[t[k].variable_id - 1] == Some(t[k].value),
        t[k].reason matches Some(c) ==> c < f.clauses@.len(),
{
    reveal(trail_ok);
    assert(match t[k].reason {
        Some(c) => c < f.clauses@.len(),
        None => true,
    });
}

/// Recording an assignment of an unassigned variable keeps the trail in agreement.
pub proof fn lemma_trail_push(t0: Seq<Assignment>, f0: CnfFormula, f1: CnfFormula, a: Assignment)
    requires
        trail_ok(t0, f0),
        1 <= a.variable_id <= f0.variable_count,
        f0.assignments@.len() == f0.variable_count,
        f0.assignments@[a.variable_id - 1] is None,
        f1.assignments@ == f0.assignments@.update(a.variable_id - 1, Some(a.value)),
        f1.variable_count == f0.variable_count,
        f1.clauses@.len() == f0.clauses@.len(),
        match a.reason {
            Some(c) => c < f0.clauses@.len(),
            None => true,
        },
    ensures
        trail_ok(t0.push(a), f1),
{
    reveal(trail_ok);
    let t = t0.push(a);
    let f = f1;
    assert forall|k: int| 0 <= k < t.len() implies f.assignments@[(#[trigger] t[k]).variable_id - 1]
        == Some(t[k].value) by {
        if k < t0.len() {
            assert(t[k] == t0[k]);
            assert(f0.assignments@[t0[k].variable_id - 1] == Some(t0[k].value));
        }
    }
    assert forall|i: int, j: int| 0 <= i < j < t.len() implies t[i].variable_id != t[j].variable_id by {
        if j == t0.len() {
            assert(f0.assignments@[t0[i].variable_id - 1] == Some(t0[i].value));
        } else {
            assert(t[i] == t0[i] && t[j] == t0[j]);
        }
    }
    assert forall|v: int|
        0 <= v < f.variable_count && (#[trigger] f.assignments@[v]) is Some implies exists|k: int|
            0 <= k < t.len() && t[k].variable_id == v + 1 by {
        if v == a.variable_id - 1 {
            assert(t[t0.len() as int].variable_id == v + 1);
        } else {
            assert(f0.assignments@[v] is Some);
            let k = choose|k: int| 0 <= k < t0.len() && t0[k].variable_id == v + 1;
            assert(t[k] == t0[k]);
        }
    }
    assert forall|k: int| 0 <= k < t.len() implies match (#[trigger] t[k]).reason {
        Some(c) => c < f.clauses@.len(),
        None => true,
    } by {
        if k < t0.len() {
            assert(t[k] == t0[k]);
        }
    }
    assert forall|k: int| 0 <= k < t.len() implies 1 <= (#[trigger] t[k]).variable_id <= f.variable_count by {
        if k < t0.len() {
            assert(t[k] == t0[k]);
        }
    }
}

/// Cutting the trail at `split` and unassigning the variables of the cut part keeps the trail
/// in agreement, and the assigned variables are then exactly those on the shorter trail.
pub proof fn lemma_trail_cut(t0: Seq<Assignment>, f0: CnfFormula, f1: CnfFormula, split: int)
    requires
        trail_ok(t0, f0),
        0 <= split <= t0.len(),
        f0.assignments@.len() == f0.variable_count,
        f1.assignments@.len() == f0.assignments@.len(),
        forall|i: int|
            0 <= i < f0.assignments@.len() ==> #[trigger] f1.assignments@[i] == if crate::cdcl::implication_graph::vars_from(
                t0,
                split,
                i + 1,
            ) {
                None
            } else {
                f0.assignments@[i]
            },
        f1.variable_count == f0.variable_count,
        f1.clauses@.len() == f0.clauses@.len(),
    ensures
        trail_ok(t0.take(split), f1),
        forall|i: int|
            0 <= i < f1.assignments@.len() ==> (#[trigger] f1.assignments@[i] is Some <==> exists|k: int|
                0 <= k < t0.take(split).len() && t0.take(split)[k].variable_id == i + 1),
{
    reveal(trail_ok);
    let t = t0.take(split);
    let f = f1;
    let a0 = f0.assignments@;
    assert forall|k: int| 0 <= k < t.len() implies f.assignments@[(#[trigger] t[k]).variable_id - 1]
        == Some(t[k].value) by {
        assert(t[k] == t0[k]);
        let v = t0[k].variable_id - 1;
        if crate::cdcl::implication_graph::vars_from(t0, split, v + 1) {
            let m = choose|m: int| split <= m < t0.len() && t0[m].variable_id == v + 1;
            assert(t0[k].variable_id != t0[m].variable_id);
        }
    }
    assert forall|i: int, j: int| 0 <= i < j < t.len() implies t[i].variable_id != t[j].variable_id by {
        assert(t[i] == t0[i] && t[j] == t0[j]);
    }
    assert forall|v: int|
        0 <= v < f.variable_count && (#[trigger] f.assignments@[v]) is Some implies exists|k: int|
            0 <= k < t.len() && t[k].variable_id == v + 1 by {
        assert(!crate::cdcl::implication_graph::vars_from(t0, split, v + 1));
        assert(a0[v] is Some);
        let k = choose|k: int| 0 <= k < t0.len() && t0[k].variable_id == v + 1;
        if k >= split {
            assert(crate::cdcl::implication_graph::vars_from(t0, split, v + 1));
        }
        assert(t[k] == t0[k]);
    }
    assert forall|k: int| 0 <= k < t.len() implies match (#[trigger] t[k]).reason {
        Some(c) => c < f.clauses@.len(),
        None => true,
    } by {
        assert(t[k] == t0[k]);
    }
    assert forall|k: int| 0 <= k < t.len() implies 1 <= (#[trigger] t[k]).variable_id <= f.variable_count by {
        assert(t[k] == t0[k]);
    }
    assert forall|i: int|
        0 <= i < f.assignments@.len() implies (#[trigger] f.assignments@[i] is Some <==> exists|k: int|
            0 <= k < t.len() && t[k].variable_id == i + 1) by {
        if exists|k: int| 0 <= k < t.len() && t[k].variable_id == i + 1 {
            let k = choose|k: int| 0 <= k < t.len() && t[k].variable_id == i + 1;
            assert(f.assignments@[t[k].variable_id - 1] == Some(t[k].value));
        }
    }
}

/// More clauses keep the trail in agreement, as long as the assignment stays.
pub proof fn lemma_trail_more_clauses(t: Seq<Assignment>, f0: CnfFormula, f1: CnfFormula)
    requires
        trail_ok(t, f0),
        f1.assignments@ == f0.assignments@,
        f1.variable_count == f0.variable_count,
        f0.clauses@.len() <= f1.clauses@.len(),
    ensures
        trail_ok(t, f1),
{
    reveal(trail_ok);
    assert forall|k: int| 0 <= k < t.len() implies match (#[trigger] t[k]).reason {
        Some(c) => c < f1.clauses@.len(),
        None => true,
    } by {
        assert(match t[k].reason {
            Some(c) => c < f0.clauses@.len(),
            None => true,
        });
    }
}

/// `c + k`, saturating at the largest `usize`.
pub open spec fn saturating_sum(c: usize, k: int) -> usize {
    if c + k > usize::MAX {
        usize::MAX
    } else {
        (c + k) as usize
    }
}

/// How often `l` occurs in `s`.
pub open spec fn occurrences(s: Seq<i32>, l: i32) -> nat {
    s.filter(|x: i32| x == l).len()
}

/// A clause with the same literals as one that every model satisfies is satisfied by every
/// model too.
pub proof fn lemma_implied_permuted(cs: Seq<Seq<i32>>, n: nat, c: Seq<i32>, r: Seq<i32>)
    requires
        implied(cs, c, n),
        r.to_multiset() == c.to_multiset(),
    ensures
        implied(cs, r, n),
{
    broadcast use vstd::seq_lib::group_to_multiset_ensures;

    assert forall|m: Seq<bool>| #[trigger] is_model(m, cs, n) implies satisfied_by(m, r) by {
        assert(satisfied_by(m, c));
        let i = choose|i: int| 0 <= i < c.len() && holds(m, #[trigger] c[i]);
        assert(c.contains(c[i]));
        assert(r.to_multiset().count(c[i]) > 0);
        assert(r.contains(c[i]));
        let x = choose|x: int| 0 <= x < r.len() && r[x] == c[i];
        assert(holds(m, r[x]));
    }
}

/// A learned clause that was false, arranged for watching with the literal at `u` last, after
/// the jump back that leaves that literal unassigned and the others false: no literal occurs
/// negated in it, its last literal is unassigned and every other literal is false.
pub proof fn lemma_learned_ready(
    c: Seq<i32>,
    r: Seq<i32>,
    a0: Seq<Option<bool>>,
    a1: Seq<Option<bool>>,
    u: int,
)
    requires
        lits_in_range(c, a0.len() as int),
        clause_falsified(a0, c),
        0 <= u < c.len(),
        lit_unassigned(a1, c[u]),
        forall|k: int| 0 <= k < c.len() && k != u ==> lit_false(a1, #[trigger] c[k]) && c[k] != c[u],
        r.to_multiset() == c.to_multiset(),
        r.len() == c.len(),
        r.last() == c[u],
    ensures
        forall|i: int, j: int| 0 <= i < r.len() && 0 <= j < r.len() ==> #[trigger] r[i] != -(#[trigger] r[j]),
        lit_unassigned(a1, r.last()),
        forall|i: int| 0 <= i < r.len() && r[i] != r.last() ==> lit_false(a1, #[trigger] r[i]),
{
    broadcast use vstd::seq_lib::group_to_multiset_ensures;

    assert forall|i: int| 0 <= i < r.len() implies c.contains(#[trigger] r[i]) by {
        assert(r.contains(r[i]));
        assert(r.to_multiset().count(r[i]) > 0);
    }
    assert forall|i: int, j: int| 0 <= i < r.len() && 0 <= j < r.len() implies #[trigger] r[i] != -(
    #[trigger] r[j]) by {
        assert(c.contains(r[i]) && c.contains(r[j]));
        let k1 = choose|k: int| 0 <= k < c.len() && c[k] == r[i];
        let k2 = choose|k: int| 0 <= k < c.len() && c[k] == r[j];
        assert(lit_false(a0, c[k1]) && lit_false(a0, c[k2]));
        assert(lit_ok(c[k1]) && lit_ok(c[k2]));
    }
    assert forall|i: int| 0 <= i < r.len() && r[i] != r.last() implies lit_false(a1, #[trigger] r[i]) by {
        assert(c.contains(r[i]));
        let k = choose|k: int| 0 <= k < c.len() && c[k] == r[i];
        assert(k != u);
    }
}

/// A learned clause that was false with exactly one literal of the current decision level,
/// arranged for watching (its literal of a highest level last) and taken back to the level
/// that conflict analysis gives: no literal occurs negated in it, its last literal is
/// unassigned and every other literal is false.
pub proof fn lemma_jump_ready(
    t: Seq<Assignment>,
    st: Seq<usize>,
    a0: Seq<Option<bool>>,
    a1: Seq<Option<bool>>,
    c: Seq<i32>,
    r: Seq<i32>,
    b: usize,
)
    requires
        forall|i: int, j: int| 0 <= i < j < st.len() ==> st[i] < st[j],
        forall|i: int| 0 <= i < st.len() ==> st[i] < t.len(),
        b < st.len() <= usize::MAX,
        forall|i: int, j: int| 0 <= i < j < t.len() ==> t[i].variable_id != t[j].variable_id,
        forall|v: int|
            0 <= v < a0.len() && (#[trigger] a0[v]) is Some ==> exists|k: int|
                0 <= k < t.len() && t[k].variable_id == v + 1,
        a1.len() == a0.len(),
        forall|i: int|
            0 <= i < a0.len() ==> #[trigger] a1[i] == if vars_from(t, st[b as int] as int, i + 1) {
                None
            } else {
                a0[i]
            },
        lits_in_range(c, a0.len() as int),
        c.len() > 0,
        clause_falsified(a0, c),
        crate::cdcl::conflict_analysis::count_on(c, crate::cdcl::conflict_analysis::current_level_vars(t, st)) == 1,
        c.len() >= 2 ==> crate::cdcl::conflict_analysis::all_on_trail(t, c)
            && crate::cdcl::conflict_analysis::is_second_largest(
            crate::cdcl::conflict_analysis::clause_levels(t, st, c),
            b,
        ),
        c.len() < 2 ==> b == 0,
        r.to_multiset() == c.to_multiset(),
        r.len() == c.len(),
        c.len() >= 2 && crate::cdcl::conflict_analysis::all_on_trail(t, c) ==> exists|top: int, second: int|
            #[trigger] crate::cdcl::conflict_analysis::arranged_at(
                c,
                r,
                crate::cdcl::conflict_analysis::clause_levels(t, st, c),
                top,
                second,
            ),
    ensures
        forall|i: int, j: int| 0 <= i < r.len() && 0 <= j < r.len() ==> #[trigger] r[i] != -(#[trigger] r[j]),
        lit_unassigned(a1, r.last()),
        forall|i: int| 0 <= i < r.len() && r[i] != r.last() ==> lit_false(a1, #[trigger] r[i]),
{
    let u = crate::cdcl::conflict_analysis::lemma_asserting_after_jump(t, st, a0, a1, c, b);
    if c.len() >= 2 {
        let lv = crate::cdcl::conflict_analysis::clause_levels(t, st, c);
        let (top, second) = choose|top: int, second: int|
            #[trigger] crate::cdcl::conflict_analysis::arranged_at(c, r, lv, top, second);
        if top != u {
            assert(lv[u] <= lv[top]);
        }
    } else {
        broadcast use vstd::seq_lib::group_to_multiset_ensures;

        assert(r.contains(r[0]));
        assert(c.to_multiset().count(r[0]) > 0);
        assert(c.contains(r[0]));
    }
    lemma_learned_ready(c, r, a0, a1, u);
}

#[derive(Debug, PartialEq, Eq, Structural, Clone, Copy)]
pub enum CdclStatus {
    Sat,
    Unsat,
    Incomplete,
    Conflict(usize),
}

impl CdclStatus {
    pub fn is_conflict(&self) -> (r: bool)
        ensures
            r == (*self is Conflict),
    {
        match self {
            CdclStatus::Conflict(_) => true,
            _ => false,
        }
    }
}

pub struct Cdcl {
    pub cnf_formula: CnfFormula,
    pub implication_graph: ImplicationGraph,
    pub status: CdclStatus,
    pub unit_queue: VecDeque<ClauseID>,
    pub restart_heuristic: Box<dyn RestartHeuristic>,
    pub stats: SolverStats,
    pub lit_prio: PriorityQueue<Literal, usize>,
    pub lit_counter: FxHashMap<Literal, usize>,
    /// How many learned clauses clause deletion keeps at least.
    pub clauses_limit: usize,
    /// Whether the search started from a formula whose watches are sound (see `watches_sound`)
    /// with every variable unassigned; then a `Sat` answer comes with a model, and an `Unsat`
    /// answer means that the formula has none.
    pub sound: Ghost<bool>,
    /// The literals of the clauses the search started from.
    pub original: Ghost<Seq<Seq<i32>>>,
    /// How many steps the latest call of `solve` took.
    pub steps: Ghost<nat>,
}

/// No clause repeats a literal.
#[verifier::opaque]
pub open spec fn clauses_no_repeats(cls: Seq<Clause>) -> bool {
    forall|c: int| 0 <= c < cls.len() ==> (#[trigger] cls[c]).literals@.no_duplicates()
}

/// The literal holds under a total assignment `m` of the variables `1..=m.len()`.
pub open spec fn holds(m: Seq<bool>, l: i32) -> bool {
    m[var_of(l) - 1] == (l > 0)
}

/// Some literal of the clause holds under `m`.
pub open spec fn satisfied_by(m: Seq<bool>, lits: Seq<i32>) -> bool {
    exists|i: int| 0 <= i < lits.len() && holds(m, #[trigger] lits[i])
}

/// `m` assigns the variables `1..=n` and satisfies every clause.
pub open spec fn is_model(m: Seq<bool>, cs: Seq<Seq<i32>>, n: nat) -> bool {
    &&& m.len() == n
    &&& forall|c: int| 0 <= c < cs.len() ==> satisfied_by(m, #[trigger] cs[c])
}

/// Every model of `cs` satisfies the clause.
pub open spec fn implied(cs: Seq<Seq<i32>>, lits: Seq<i32>, n: nat) -> bool {
    forall|m: Seq<bool>| #[trigger] is_model(m, cs, n) ==> satisfied_by(m, lits)
}

/// The literals of each clause.
pub open spec fn clause_lits(cs: Seq<Clause>) -> Seq<Seq<i32>> {
    cs.map_values(|c: Clause| c.literals@)
}

/// The literals of the clause of other variables than that of trail entry `k` are false, each
/// assigned at an earlier trail position, and those of its variable are the one it made true.
pub open spec fn reason_ok(t: Seq<Assignment>, a: Seq<Option<bool>>, lits: Seq<i32>, k: int) -> bool {
    forall|i: int| 0 <= i < lits.len() ==> reason_lit_ok(t, a, #[trigger] lits[i], k)
}

/// A literal of other variable than that of trail entry `k` is false and assigned at an
/// earlier trail position; a literal of its variable is the one it made true.
pub open spec fn reason_lit_ok(t: Seq<Assignment>, a: Seq<Option<bool>>, l: i32, k: int) -> bool {
    if var_of(l) != t[k].variable_id {
        lit_false(a, l) && exists|j: int| 0 <= j < k && t[j].variable_id == var_of(l)
    } else {
        (l > 0) == t[k].value
    }
}

/// Every literal of the clause other than its first watched literal is false.
pub open spec fn rest_false(a: Seq<Option<bool>>, cl: Clause) -> bool {
    forall|i: int|
        0 <= i < cl.literals@.len() && cl.literals@[i] != cl.watched1 ==> lit_false(a, #[trigger] cl.literals@[i])
}

impl Cdcl {
    /// The solver state is consistent.
    pub open spec fn wf(&self) -> bool {
        &&& self.cnf_formula.wf()
        &&& self.implication_graph.wf()
        &&& trail_ok(self.implication_graph.trail(), self.cnf_formula)
        &&& forall|k: int|
            0 <= k < self.unit_queue@.len() ==> (#[trigger] self.unit_queue@[k]) < self.cnf_formula.clauses@.len()
        &&& self.cnf_formula.free_indices@.len() == 0
        &&& self.cnf_formula.current_id == self.cnf_formula.clauses@.len()
        &&& match self.status {
            CdclStatus::Conflict(c) => c < self.cnf_formula.clauses@.len(),
            CdclStatus::Sat => forall|i: int|
                0 <= i < self.cnf_formula.assignments@.len() ==> self.cnf_formula.assignments@[i] is Some,
            _ => true,
        }
        &&& pq_priorities(self.lit_prio).dom() == all_lits(self.cnf_formula.variable_count as int)
        &&& self.lit_counter@.dom() == all_lits(self.cnf_formula.variable_count as int)
    }

    /// The watches are sound, each propagated assignment on the trail is forced by its reason,
    /// each queued clause has every literal but its first watched one false, every assignment
    /// without a reason starts a decision level, the clauses begin with the original ones and
    /// are all implied by them, and the search has not answered `Unsat` by its status.
    pub open spec fn watch_state_ok(&self) -> bool {
        let t = self.implication_graph.trail();
        let a = self.cnf_formula.assignments@;
        let cls = self.cnf_formula.clauses@;
        &&& watches_sound(self.cnf_formula)
        &&& forall|k: int|
            0 <= k < t.len() && (#[trigger] t[k]).reason is Some ==> reason_ok(
                t,
                a,
                cls[t[k].reason->0 as int].literals@,
                k,
            )
        &&& forall|q: int|
            0 <= q < self.unit_queue@.len() ==> rest_false(a, cls[(#[trigger] self.unit_queue@[q]) as int])
        &&& forall|k: int|
            0 <= k < t.len() && (#[trigger] t[k]).reason is None ==> self.implication_graph.starts().contains(
                k as usize,
            )
        &&& self.original@.len() <= cls.len()
        &&& forall|c: int| 0 <= c < self.original@.len() ==> #[trigger] cls[c].literals@ == self.original@[c]
        &&& forall|c: int|
            0 <= c < cls.len() ==> implied(self.original@, #[trigger] cls[c].literals@, self.cnf_formula.variable_count as nat)
        &&& self.status != CdclStatus::Unsat
    }

    /// No clause has both watched literals false; in a conflict this holds once the last
    /// assignment is undone, and the conflict clause is false.
    pub open spec fn alive_ok(&self) -> bool {
        let a = self.cnf_formula.assignments@;
        let cls = self.cnf_formula.clauses@;
        match self.status {
            CdclStatus::Conflict(c) => {
                &&& self.implication_graph.trail().len() > 0
                &&& clause_falsified(a, cls[c as int].literals@)
                &&& all_watches_alive(a.update(self.implication_graph.trail().last().variable_id - 1, None), cls)
            },
            _ => all_watches_alive(a, cls),
        }
    }

    /// Where the search started sound, its state keeps what a model needs.
    pub open spec fn search_ok(&self) -> bool {
        self.sound@ ==> self.watch_state_ok() && self.alive_ok()
    }

    pub fn new(cnf_formula: CnfFormula, restart_heuristic: Box<dyn RestartHeuristic>) -> (r: Cdcl)
        requires
            cnf_formula.wf(),
            cnf_formula.free_indices@.len() == 0,
            cnf_formula.current_id == cnf_formula.clauses@.len(),
            forall|i: int| 0 <= i < cnf_formula.assignments@.len() ==> cnf_formula.assignments@[i] is None,
        ensures
            r.wf(),
            r.cnf_formula == cnf_formula,
            r.status == CdclStatus::Incomplete,
            r.implication_graph.trail().len() == 0,
            r.implication_graph.starts().len() == 0,
            r.stats.conflict_count == 0,
            r.stats.number_of_restarts == 0,
            r.clauses_limit == usize::MAX,
            r.sound@ == watches_sound(cnf_formula),
            r.original@ == clause_lits(cnf_formula.clauses@),
            r.search_ok(),
            forall|c: int|
                0 <= c < cnf_formula.clauses@.len() ==> (r.unit_queue@.contains(c as usize)
                    <==> crate::cnf::cnf_formula::is_unit_clause(
                    cnf_formula.assignments@,
                    #[trigger] cnf_formula.clauses@[c].literals@,
                )),
            forall|l: Literal|
                #![trigger pq_priorities(r.lit_prio)[l]]
                lit_ok(l) && 1 <= var_of(l) <= cnf_formula.variable_count ==> pq_priorities(r.lit_prio)[l]
                    == if l > 0 {
                    cnf_formula.variables.0@[var_of(l) - 1].positive_occurrences_count
                } else {
                    cnf_formula.variables.0@[var_of(l) - 1].negative_occurrences_count
                },
            forall|l: Literal| lit_ok(l) && 1 <= var_of(l) <= cnf_formula.variable_count ==> r.lit_counter@[l] == 0,
    {
        let unit_queue = cnf_formula.generate_unit_queue();
        let n = cnf_formula.variable_count as i32;
        let mut lit_counter: FxHashMap<Literal, usize> = FxHashMap::default();
        let mut pairs: Vec<(Literal, usize)> = Vec::new();
        let mut lit = -n;
        while lit <= n
            invariant
                n == cnf_formula.variable_count,
                cnf_formula.wf(),
                -n <= lit <= n + 1,
                lit_counter@.dom() == Set::new(|l: Literal| lit_ok(l) && -n <= l < lit),
                forall|l: Literal| lit_ok(l) && -n <= l < lit ==> lit_counter@[l] == 0,
                forall|a: int, b: int| 0 <= a < b < pairs@.len() ==> pairs@[a].0 < pairs@[b].0,
                forall|k: int| 0 <= k < pairs@.len() ==> lit_ok((#[trigger] pairs@[k]).0) && -n <= pairs@[k].0 < lit,
                forall|l: Literal| lit_ok(l) && -n <= l < lit ==> exists|k: int| 0 <= k < pairs@.len() && (#[trigger] pairs@[k]).0 == l,
                forall|k: int| 0 <= k < pairs@.len() ==> (#[trigger] pairs@[k]).1 == if pairs@[k].0 > 0 {
                    cnf_formula.variables.0@[var_of(pairs@[k].0) - 1].positive_occurrences_count
                } else {
                    cnf_formula.variables.0@[var_of(pairs@[k].0) - 1].negative_occurrences_count
                },
            decreases n + 1 - lit,
        {
            if lit != 0 {
                let var = cnf_formula.variables.get(lit_var(lit));
                let prio = if lit > 0 {
                    var.positive_occurrences_count
                } else {
                    var.negative_occurrences_count
                };
                let ghost p0 = pairs@;
                pairs.push((lit, prio));
                fx_map_insert(&mut lit_counter, lit, 0);
                proof {
                    assert(pairs@[pairs@.len() - 1].0 == lit);
                    assert forall|l: Literal| lit_ok(l) && -n <= l < lit + 1 implies exists|k: int| 0 <= k < pairs@.len() && (#[trigger] pairs@[k]).0 == l by {
                        if l < lit {
                            let k = choose|k: int| 0 <= k < p0.len() && (#[trigger] p0[k]).0 == l;
                            assert(pairs@[k] == p0[k]);
                        } else {
                            assert(pairs@[pairs@.len() - 1].0 == l);
                        }
                    }
                }
            }
            assert(lit_counter@.dom() =~= Set::new(|l: Literal| lit_ok(l) && -n <= l < lit + 1));
            lit = lit + 1;
        }
        let lit_prio = pq_from_pairs(pairs);
        proof {
            let keys = pairs@.map_values(|p: (Literal, usize)| p.0);
            assert(keys.to_set() =~= all_lits(n as int)) by {
                assert forall|l: Literal| keys.to_set().contains(l) <==> all_lits(n as int).contains(l) by {
                    if keys.contains(l) {
                        let k = choose|k: int| 0 <= k < keys.len() && keys[k] == l;
                        assert(pairs@[k].0 == l);
                    }
                    if all_lits(n as int).contains(l) {
                        let k = choose|k: int| 0 <= k < pairs@.len() && (#[trigger] pairs@[k]).0 == l;
                        assert(keys[k] == l);
                    }
                }
            }
            assert(lit_counter@.dom() =~= all_lits(n as int));
            assert forall|l: Literal|
                lit_ok(l) && 1 <= var_of(l) <= cnf_formula.variable_count implies #[trigger] pq_priorities(lit_prio)[l]
                    == if l > 0 {
                    cnf_formula.variables.0@[var_of(l) - 1].positive_occurrences_count
                } else {
                    cnf_formula.variables.0@[var_of(l) - 1].negative_occurrences_count
                } by {
                let k = choose|k: int| 0 <= k < pairs@.len() && (#[trigger] pairs@[k]).0 == l;
                assert(pq_priorities(lit_prio)[pairs@[k].0] == pairs@[k].1);
            }
        }
        let cdcl = Cdcl {
            unit_queue,
            lit_counter,
            lit_prio,
            cnf_formula,
            implication_graph: ImplicationGraph::new(),
            status: CdclStatus::Incomplete,
            stats: SolverStats::new(),
            restart_heuristic,
            clauses_limit: usize::MAX,
            sound: Ghost(watches_sound(cnf_formula)),
            original: Ghost(clause_lits(cnf_formula.clauses@)),
            steps: Ghost(0),
        };
        proof {
            reveal(trail_ok);
            assert forall|v: int|
                0 <= v < cdcl.cnf_formula.variable_count && (#[trigger] cdcl.cnf_formula.assignments@[v]) is Some implies exists|k: int|
                    0 <= k < cdcl.implication_graph.trail().len() && cdcl.implication_graph.trail()[k].variable_id == v + 1 by {
                assert(cnf_formula.assignments@[v] is None);
            }
            crate::dpll::dpll::lemma_nothing_false_alive(cdcl.cnf_formula.assignments@, cdcl.cnf_formula.clauses@);
            let orig = cdcl.original@;
            let n = cdcl.cnf_formula.variable_count as nat;
            assert forall|c: int| 0 <= c < cdcl.cnf_formula.clauses@.len() implies implied(
                orig,
                #[trigger] cdcl.cnf_formula.clauses@[c].literals@,
                n,
            ) by {
                assert forall|m: Seq<bool>| #[trigger] is_model(m, orig, n) implies satisfied_by(
                    m,
                    cdcl.cnf_formula.clauses@[c].literals@,
                ) by {
                    assert(orig[c] == cdcl.cnf_formula.clauses@[c].literals@);
                }
            }
            if cdcl.unit_queue@.len() > 0 {
                let c0 = cdcl.unit_queue@[0];
                assert(cdcl.unit_queue@.contains(c0));
                assert(cnf_formula.assignments@[var_of(cnf_formula.clauses@[c0 as int].watched2) - 1] is None);
            }
        }
        cdcl
    }

    /// The parts of the state that search steps leave alone.
    pub open spec fn same_setup(&self, other: &Cdcl) -> bool {
        &&& self.cnf_formula.variable_count == other.cnf_formula.variable_count
        &&& self.cnf_formula.clauses@.len() == other.cnf_formula.clauses@.len()
        &&& forall|c: int|
            0 <= c < other.cnf_formula.clauses@.len() ==> (#[trigger] self.cnf_formula.clauses@[c]).literals@
                == other.cnf_formula.clauses@[c].literals@
        &&& self.lit_prio == other.lit_prio
        &&& self.lit_counter == other.lit_counter
        &&& self.stats == other.stats
    }

    /// Applies an assignment and records it on the trail with the given kind, updating the status.
    fn apply_and_record(&mut self, assignment: Assignment, decision: bool) -> (result: AssignmentResult)
        requires
            old(self).wf(),
            1 <= assignment.variable_id <= old(self).cnf_formula.variable_count,
            old(self).cnf_formula.assignments@[assignment.variable_id - 1] is None,
            match assignment.reason {
                Some(c) => c < old(self).cnf_formula.clauses@.len(),
                None => true,
            },
            old(self).sound@ ==> old(self).watch_state_ok() && all_watches_alive(
                old(self).cnf_formula.assignments@,
                old(self).cnf_formula.clauses@,
            ),
            decision || assignment.reason is Some,
            old(self).sound@ ==> match assignment.reason {
                Some(c) => forall|i: int|
                    0 <= i < old(self).cnf_formula.clauses@[c as int].literals@.len() ==> if var_of(
                        #[trigger] old(self).cnf_formula.clauses@[c as int].literals@[i],
                    ) != assignment.variable_id {
                        lit_false(
                            old(self).cnf_formula.assignments@,
                            old(self).cnf_formula.clauses@[c as int].literals@[i],
                        )
                    } else {
                        (old(self).cnf_formula.clauses@[c as int].literals@[i] > 0) == assignment.value
                    },
                None => true,
            },
        ensures
            final(self).sound == old(self).sound,
            final(self).original == old(self).original,
            final(self).sound@ ==> final(self).watch_state_ok() && match result {
                AssignmentResult::Success => all_watches_alive(
                    final(self).cnf_formula.assignments@,
                    final(self).cnf_formula.clauses@,
                ),
                AssignmentResult::Conflict(_) => all_watches_alive(
                    final(self).cnf_formula.assignments@.update(assignment.variable_id - 1, None),
                    final(self).cnf_formula.clauses@,
                ),
            },
            final(self).wf(),
            final(self).same_setup(&*old(self)),
            final(self).cnf_formula.assignments@ == old(self).cnf_formula.assignments@.update(
                assignment.variable_id - 1,
                Some(assignment.value),
            ),
            final(self).implication_graph.trail() == old(self).implication_graph.trail().push(assignment),
            decision ==> final(self).implication_graph.starts() == old(self).implication_graph.starts().push(
                old(self).implication_graph.trail().len() as usize,
            ),
            !decision ==> final(self).implication_graph.starts() == old(self).implication_graph.starts(),
            final(self).unit_queue@.subrange(0, old(self).unit_queue@.len() as int) == old(self).unit_queue@,
            old(self).unit_queue@.len() <= final(self).unit_queue@.len(),
            forall|k: int|
                old(self).unit_queue@.len() <= k < final(self).unit_queue@.len() ==> crate::cnf::literals::clause_unit_on(
                    final(self).cnf_formula.assignments@,
                    final(self).cnf_formula.clauses@[(#[trigger] final(self).unit_queue@[k]) as int].literals@,
                    final(self).cnf_formula.clauses@[final(self).unit_queue@[k] as int].watched1,
                ),
            final(self).status == old(self).status,
            match result {
                AssignmentResult::Conflict(c) => c < final(self).cnf_formula.clauses@.len()
                    && crate::cnf::literals::clause_falsified(
                    final(self).cnf_formula.assignments@,
                    final(self).cnf_formula.clauses@[c as int].literals@,
                ),
                AssignmentResult::Success => true,
            },
    {
        let ghost t0 = self.implication_graph.trail();
        let result = self.cnf_formula.apply_assignment(&assignment, &mut self.unit_queue);
        if decision {
            self.implication_graph.push_decision(assignment);
        } else {
            self.implication_graph.push_forced(assignment);
        }
        proof {
            lemma_trail_push(t0, old(self).cnf_formula, self.cnf_formula, assignment);
            if self.sound@ {
                let a0 = old(self).cnf_formula.assignments@;
                let a1 = self.cnf_formula.assignments@;
                let cls0 = old(self).cnf_formula.clauses@;
                let cls1 = self.cnf_formula.clauses@;
                let t1 = self.implication_graph.trail();
                let x = assignment.variable_id - 1;
                assert(a1.update(x, None) =~= a0);
                reveal(trail_ok);
                assert forall|k: int| 0 <= k < t1.len() && (#[trigger] t1[k]).reason is Some implies reason_ok(
                    t1,
                    a1,
                    cls1[t1[k].reason->0 as int].literals@,
                    k,
                ) by {
                    let c = t1[k].reason->0 as int;
                    let lits = cls1[c].literals@;
                    if k < t0.len() {
                        assert(t1[k] == t0[k]);
                        assert(c < cls0.len());
                        assert(reason_ok(t0, a0, cls0[c].literals@, k));
                    }
                    assert forall|i: int| 0 <= i < lits.len() implies reason_lit_ok(t1, a1, #[trigger] lits[i], k) by {
                        assert(lits[i] == cls0[c].literals@[i]);
                        if var_of(lits[i]) != t1[k].variable_id {
                            if k < t0.len() {
                                assert(reason_lit_ok(t0, a0, cls0[c].literals@[i], k));
                                let j = choose|j: int| 0 <= j < k && t0[j].variable_id == var_of(lits[i]);
                                assert(t1[j] == t0[j]);
                            } else {
                                assert(t1[k] == assignment);
                                assert(lit_false(a0, lits[i]));
                                assert(clause_wf(cls0[c], old(self).cnf_formula.variable_count as int));
                                assert(1 <= var_of(lits[i]) <= old(self).cnf_formula.variable_count);
                                assert(a0[var_of(lits[i]) - 1] is Some);
                                let j = choose|j: int| 0 <= j < t0.len() && t0[j].variable_id == var_of(lits[i]) - 1 + 1;
                                assert(t1[j] == t0[j]);
                            }
                        } else if k < t0.len() {
                            assert(reason_lit_ok(t0, a0, cls0[c].literals@[i], k));
                        }
                    }
                }
                let st0 = old(self).implication_graph.starts();
                let st1 = self.implication_graph.starts();
                assert forall|k: int| 0 <= k < t1.len() && (#[trigger] t1[k]).reason is None implies st1.contains(k as usize) by {
                    if k < t0.len() {
                        assert(t1[k] == t0[k]);
                        assert(st0.contains(k as usize));
                        let w = choose|w: int| 0 <= w < st0.len() && st0[w] == k as usize;
                        assert(st1[w] == st0[w]);
                    } else {
                        assert(st1[st1.len() - 1] == t0.len() as usize);
                    }
                }
                let n = self.cnf_formula.variable_count as nat;
                assert forall|c: int| 0 <= c < cls1.len() implies implied(self.original@, #[trigger] cls1[c].literals@, n) by {
                    assert(cls1[c].literals@ == cls0[c].literals@);
                }
                assert forall|c: int| 0 <= c < self.original@.len() implies #[trigger] cls1[c].literals@ == self.original@[c] by {
                    assert(cls1[c].literals@ == cls0[c].literals@);
                }
                let q0 = old(self).unit_queue@;
                let q = self.unit_queue@;
                assert forall|p: int| 0 <= p < q.len() implies rest_false(a1, cls1[(#[trigger] q[p]) as int]) by {
                    let c = q[p] as int;
                    if p < q0.len() {
                        assert(q.subrange(0, q0.len() as int)[p] == q0[p]);
                        assert(rest_false(a0, cls0[c]));
                        assert forall|i: int|
                            0 <= i < cls1[c].literals@.len() && cls1[c].literals@[i] != cls1[c].watched1 implies lit_false(
                                a1,
                                #[trigger] cls1[c].literals@[i],
                            ) by {
                            assert(cls1[c].literals@[i] == cls0[c].literals@[i]);
                        }
                    }
                }
            }
            let q0 = old(self).unit_queue@;
            let q = self.unit_queue@;
            assert forall|k: int| 0 <= k < q.len() implies (#[trigger] q[k]) < self.cnf_formula.clauses@.len() by {
                if k < q0.len() {
                    assert(q.subrange(0, q0.len() as int)[k] == q0[k]);
                }
            }
        }
        result
    }

    /// Applies a forced assignment and records it on the trail.
    pub(crate) fn apply_and_record_forced(&mut self, assignment: Assignment) -> (result: AssignmentResult)
        requires
            old(self).wf(),
            1 <= assignment.variable_id <= old(self).cnf_formula.variable_count,
            old(self).cnf_formula.assignments@[assignment.variable_id - 1] is None,
            match assignment.reason {
                Some(c) => c < old(self).cnf_formula.clauses@.len(),
                None => true,
            },
            old(self).sound@ ==> old(self).watch_state_ok() && all_watches_alive(
                old(self).cnf_formula.assignments@,
                old(self).cnf_formula.clauses@,
            ),
            assignment.reason is Some,
            old(self).sound@ ==> match assignment.reason {
                Some(c) => forall|i: int|
                    0 <= i < old(self).cnf_formula.clauses@[c as int].literals@.len() ==> if var_of(
                        #[trigger] old(self).cnf_formula.clauses@[c as int].literals@[i],
                    ) != assignment.variable_id {
                        lit_false(
                            old(self).cnf_formula.assignments@,
                            old(self).cnf_formula.clauses@[c as int].literals@[i],
                        )
                    } else {
                        (old(self).cnf_formula.clauses@[c as int].literals@[i] > 0) == assignment.value
                    },
                None => true,
            },
        ensures
            final(self).sound == old(self).sound,
            final(self).original == old(self).original,
            final(self).sound@ ==> final(self).watch_state_ok() && match result {
                AssignmentResult::Success => all_watches_alive(
                    final(self).cnf_formula.assignments@,
                    final(self).cnf_formula.clauses@,
                ),
                AssignmentResult::Conflict(_) => all_watches_alive(
                    final(self).cnf_formula.assignments@.update(assignment.variable_id - 1, None),
                    final(self).cnf_formula.clauses@,
                ),
            },
            final(self).wf(),
            final(self).same_setup(&*old(self)),
            final(self).cnf_formula.assignments@ == old(self).cnf_formula.assignments@.update(
                assignment.variable_id - 1,
                Some(assignment.value),
            ),
            final(self).implication_graph.trail() == old(self).implication_graph.trail().push(assignment),
            final(self).implication_graph.starts() == old(self).implication_graph.starts(),
            final(self).status == old(self).status,
            match result {
                AssignmentResult::Conflict(c) => c < final(self).cnf_formula.clauses@.len()
                    && crate::cnf::literals::clause_falsified(
                    final(self).cnf_formula.assignments@,
                    final(self).cnf_formula.clauses@[c as int].literals@,
                ),
                AssignmentResult::Success => true,
            },
    {
        self.apply_and_record(assignment, false)
    }

    /// Applies a decision: a new decision level starts with it.
    pub fn decide(&mut self, assignment: Assignment)
        requires
            old(self).wf(),
            1 <= assignment.variable_id <= old(self).cnf_formula.variable_count,
            old(self).cnf_formula.assignments@[assignment.variable_id - 1] is None,
            assignment.reason is None,
            old(self).search_ok(),
            old(self).sound@ ==> !(old(self).status is Conflict),
        ensures
            final(self).original == old(self).original,
            final(self).sound == old(self).sound,
            final(self).search_ok(),
            final(self).wf(),
            final(self).same_setup(&*old(self)),
            final(self).cnf_formula.assignments@ == old(self).cnf_formula.assignments@.update(
                assignment.variable_id - 1,
                Some(assignment.value),
            ),
            final(self).implication_graph.trail() == old(self).implication_graph.trail().push(assignment),
            final(self).implication_graph.starts() == old(self).implication_graph.starts().push(
                old(self).implication_graph.trail().len() as usize,
            ),
            final(self).status == old(self).status || (final(self).status is Conflict
                && crate::cnf::literals::clause_falsified(
                final(self).cnf_formula.assignments@,
                final(self).cnf_formula.clauses@[final(self).status->Conflict_0 as int].literals@,
            )) || (final(self).status is Sat && forall|i: int|
                0 <= i < final(self).cnf_formula.assignments@.len()
                    ==> final(self).cnf_formula.assignments@[i] is Some),
    {
        let assignment_result = self.apply_and_record(assignment, true);
        match assignment_result {
            AssignmentResult::Conflict(conflict_clause_id) => {
                self.status = CdclStatus::Conflict(conflict_clause_id);
                assert(self.status->Conflict_0 == conflict_clause_id);
            },
            AssignmentResult::Success => {
                if self.cnf_formula.all_assigned() {
                    self.status = CdclStatus::Sat;
                }
            },
        }
    }

    /// Returns to a decision level: the status becomes incomplete and the unit queue empty.
    #[verifier::spinoff_prover]
    pub fn backjump(&mut self, decision_level: DecisionLevel)
        requires
            old(self).wf(),
            decision_level < old(self).implication_graph.starts().len(),
            old(self).search_ok(),
        ensures
            final(self).sound == old(self).sound,
            final(self).original == old(self).original,
            final(self).search_ok(),
            final(self).wf(),
            final(self).same_setup(&*old(self)),
            final(self).status == CdclStatus::Incomplete,
            final(self).unit_queue@.len() == 0,
            final(self).implication_graph.trail() == old(self).implication_graph.trail().take(
                old(self).implication_graph.starts()[decision_level as int] as int,
            ),
            final(self).implication_graph.starts() == old(self).implication_graph.starts().take(
                decision_level as int,
            ),
            final(self).cnf_formula.assignments@.len() == old(self).cnf_formula.assignments@.len(),
            forall|i: int|
                0 <= i < old(self).cnf_formula.assignments@.len() ==> #[trigger] final(self).cnf_formula.assignments@[i]
                    == if vars_from(
                    old(self).implication_graph.trail(),
                    old(self).implication_graph.starts()[decision_level as int] as int,
                    i + 1,
                ) {
                    None
                } else {
                    old(self).cnf_formula.assignments@[i]
                },
            forall|i: int|
                0 <= i < final(self).cnf_formula.assignments@.len() ==> (#[trigger] final(self).cnf_formula.assignments@[i]
                    is Some <==> exists|k: int|
                    0 <= k < final(self).implication_graph.trail().len()
                        && final(self).implication_graph.trail()[k].variable_id == i + 1),
    {
        self.status = CdclStatus::Incomplete;
        let ghost t0 = self.implication_graph.trail();
        let ghost split = self.implication_graph.starts()[decision_level as int] as int;
        assert(split <= t0.len());
        proof {
            reveal(trail_ok);
        }
        self.implication_graph.backjump(&mut self.cnf_formula, decision_level);
        self.unit_queue.clear();
        proof {
            lemma_trail_cut(t0, old(self).cnf_formula, self.cnf_formula, split);
            if self.sound@ {
                let a0 = old(self).cnf_formula.assignments@;
                let a1 = self.cnf_formula.assignments@;
                let cls = self.cnf_formula.clauses@;
                let x = t0.last().variable_id - 1;
                let b = a0.update(x, None);
                reveal(trail_ok);
                assert(split < t0.len());
                if !(old(self).status is Conflict) {
                    crate::dpll::dpll::lemma_alive_fewer(a0, b, cls);
                }
                assert(vars_from(t0, split, x + 1)) by {
                    assert(t0[t0.len() - 1].variable_id == x + 1);
                }
                assert forall|i: int| 0 <= i < a1.len() && a1[i] is Some implies a1[i] == b[i] by {
                    assert(a1[i] == if vars_from(t0, split, i + 1) { None } else { a0[i] });
                }
                crate::dpll::dpll::lemma_alive_fewer(b, a1, cls);
                let t1 = self.implication_graph.trail();
                assert forall|k: int| 0 <= k < t1.len() && (#[trigger] t1[k]).reason is Some implies reason_ok(
                    t1,
                    a1,
                    cls[t1[k].reason->0 as int].literals@,
                    k,
                ) by {
                    assert(t1[k] == t0[k]);
                    let lits = cls[t1[k].reason->0 as int].literals@;
                    assert(reason_ok(t0, a0, lits, k));
                    assert forall|i: int| 0 <= i < lits.len() implies reason_lit_ok(t1, a1, #[trigger] lits[i], k) by {
                        assert(reason_lit_ok(t0, a0, lits[i], k));
                        if var_of(lits[i]) != t1[k].variable_id {
                            let j = choose|j: int| 0 <= j < k && t0[j].variable_id == var_of(lits[i]);
                            assert(t1[j] == t0[j]);
                            let v = var_of(lits[i]);
                            assert(!vars_from(t0, split, v)) by {
                                if vars_from(t0, split, v) {
                                    let q = choose|q: int| split <= q < t0.len() && t0[q].variable_id == v;
                                    assert(t0[j].variable_id != t0[q].variable_id);
                                }
                            }
                            assert(1 <= v <= a0.len());
                            assert(a1[v - 1] == a0[v - 1]);
                        }
                    }
                }
                let st0 = old(self).implication_graph.starts();
                let st1 = self.implication_graph.starts();
                assert forall|k: int| 0 <= k < t1.len() && (#[trigger] t1[k]).reason is None implies st1.contains(k as usize) by {
                    assert(t1[k] == t0[k]);
                    assert(st0.contains(k as usize));
                    let w = choose|w: int| 0 <= w < st0.len() && st0[w] == k as usize;
                    if w >= decision_level {
                        if w > decision_level {
                            assert(st0[decision_level as int] < st0[w]);
                        }
                    }
                    assert(st1[w] == st0[w]);
                }
                let n = self.cnf_formula.variable_count as nat;
                assert forall|c: int| 0 <= c < cls.len() implies implied(self.original@, #[trigger] cls[c].literals@, n) by {
                    assert(cls[c] == old(self).cnf_formula.clauses@[c]);
                }
                assert forall|c: int| 0 <= c < self.original@.len() implies #[trigger] cls[c].literals@ == self.original@[c] by {
                    assert(cls[c] == old(self).cnf_formula.clauses@[c]);
                }
            }
        }
    }

    /// Restarts the search: back to decision level 0, counting the restart. At decision level 0
    /// there is nothing to undo, and only the counts change.
    pub fn restart(&mut self)
        requires
            old(self).wf(),
            old(self).stats.number_of_restarts < usize::MAX,
            old(self).search_ok(),
        ensures
            final(self).original == old(self).original,
            final(self).sound == old(self).sound,
            final(self).search_ok(),
            final(self).wf(),
            final(self).cnf_formula.variable_count == old(self).cnf_formula.variable_count,
            final(self).cnf_formula.clauses@.len() == old(self).cnf_formula.clauses@.len(),
            forall|c: int|
                0 <= c < old(self).cnf_formula.clauses@.len() ==> (#[trigger] final(self).cnf_formula.clauses@[c]).literals@
                    == old(self).cnf_formula.clauses@[c].literals@,
            final(self).lit_prio == old(self).lit_prio,
            final(self).lit_counter == old(self).lit_counter,
            final(self).implication_graph.starts().len() == 0,
            final(self).stats.conflict_count == 0,
            final(self).stats.number_of_restarts == old(self).stats.number_of_restarts + 1,
            old(self).implication_graph.starts().len() > 0 ==> {
                &&& final(self).status == CdclStatus::Incomplete
                &&& final(self).unit_queue@.len() == 0
                &&& final(self).implication_graph.trail() == old(self).implication_graph.trail().take(
                    old(self).implication_graph.starts()[0] as int,
                )
            },
            old(self).implication_graph.starts().len() == 0 ==> {
                &&& final(self).status == old(self).status
                &&& final(self).unit_queue == old(self).unit_queue
                &&& final(self).cnf_formula == old(self).cnf_formula
                &&& final(self).implication_graph == old(self).implication_graph
            },
    {
        if self.implication_graph.get_current_decision_level() > 0 {
            self.backjump(0);
        }
        self.stats.conflict_count = 0;
        self.stats.number_of_restarts = self.stats.number_of_restarts + 1;
    }

    /// Adds a learned clause under the next clause ID and queues it for propagation.
    #[verifier::spinoff_prover]
    #[verifier::rlimit(40)]
    fn learn_clause(&mut self, literals: Literals) -> (id: ClauseID)
        requires
            old(self).wf(),
            literals@.len() > 0,
            lits_in_range(literals@, old(self).cnf_formula.variable_count as int),
            old(self).cnf_formula.current_id < usize::MAX,
            old(self).sound@ ==> {
                &&& old(self).watch_state_ok()
                &&& !(old(self).status is Conflict)
                &&& all_watches_alive(old(self).cnf_formula.assignments@, old(self).cnf_formula.clauses@)
                &&& forall|i: int, j: int|
                    0 <= i < literals@.len() && 0 <= j < literals@.len() ==> #[trigger] literals@[i] != -(
                    #[trigger] literals@[j])
                &&& implied(old(self).original@, literals@, old(self).cnf_formula.variable_count as nat)
                &&& lit_unassigned(old(self).cnf_formula.assignments@, literals@.last())
                &&& forall|i: int|
                    0 <= i < literals@.len() && literals@[i] != literals@.last() ==> lit_false(
                        old(self).cnf_formula.assignments@,
                        #[trigger] literals@[i],
                    )
            },
        ensures
            final(self).sound == old(self).sound,
            final(self).original == old(self).original,
            final(self).search_ok(),
            final(self).wf(),
            id == old(self).cnf_formula.clauses@.len(),
            final(self).cnf_formula.clauses@.len() == old(self).cnf_formula.clauses@.len() + 1,
            final(self).cnf_formula.clauses@[id as int].literals@ == literals@,
            forall|c: int|
                0 <= c < old(self).cnf_formula.clauses@.len() ==> #[trigger] final(self).cnf_formula.clauses@[c]
                    == old(self).cnf_formula.clauses@[c],
            final(self).unit_queue@ == old(self).unit_queue@.push(id),
            final(self).cnf_formula.assignments@ == old(self).cnf_formula.assignments@,
            final(self).cnf_formula.variable_count == old(self).cnf_formula.variable_count,
            final(self).implication_graph == old(self).implication_graph,
            final(self).status == old(self).status,
            final(self).stats == old(self).stats,
            final(self).lit_prio == old(self).lit_prio,
            final(self).lit_counter == old(self).lit_counter,
    {
        let clause_id = self.cnf_formula.get_next_clause_id();
        let ghost vars0 = self.cnf_formula.variables.0@;
        let ghost lits = literals@;
        let clause = Clause::new(literals, &mut self.cnf_formula.variables, clause_id);
        proof {
            if self.sound@ {
                lemma_complete_watches_push(
                    vars0,
                    self.cnf_formula.variables.0@,
                    self.cnf_formula.clauses@,
                    clause,
                    clause_id,
                );
                assert(non_tautological(clause));
                if clause.watched1 == clause.watched2 {
                    assert forall|x: int| 0 <= x < lits.len() implies #[trigger] lits[x] == clause.watched1 by {
                        lemma_same_var(lits[x], lits[lits.len() - 1]);
                        assert(lits[x] != -lits[lits.len() - 1]);
                    }
                }
                assert(watch_shape(clause));
            }
            lemma_watch_lists_push(
                vars0,
                self.cnf_formula.variables.0@,
                self.cnf_formula.clauses@,
                clause,
                clause_id,
            );
        }
        self.cnf_formula.clauses.push(clause);
        self.unit_queue.push_back(clause_id);
        proof {
            lemma_trail_more_clauses(self.implication_graph.trail(), old(self).cnf_formula, self.cnf_formula);
            let q = self.unit_queue@;
            assert forall|k: int| 0 <= k < q.len() implies (#[trigger] q[k]) < self.cnf_formula.clauses@.len() by {
                if k < q.len() - 1 {
                    assert(q[k] == old(self).unit_queue@[k]);
                }
            }
            assert forall|c: int|
                0 <= c < self.cnf_formula.clauses@.len() implies clause_wf(
                #[trigger] self.cnf_formula.clauses@[c],
                self.cnf_formula.variable_count as int,
            ) by {
                if c < old(self).cnf_formula.clauses@.len() {
                    assert(self.cnf_formula.clauses@[c] == old(self).cnf_formula.clauses@[c]);
                }
            }
            if self.sound@ {
                let cls0 = old(self).cnf_formula.clauses@;
                let cls = self.cnf_formula.clauses@;
                let a = self.cnf_formula.assignments@;
                let t = self.implication_graph.trail();
                assert forall|c: int| 0 <= c < cls.len() implies non_tautological(#[trigger] cls[c]) && watch_shape(
                    cls[c],
                ) by {
                    if c < cls0.len() {
                        assert(cls[c] == cls0[c]);
                    }
                }
                assert forall|c: int| 0 <= c < cls.len() implies crate::cnf::cnf_formula::watch_alive(
                    a,
                    #[trigger] cls[c],
                ) by {
                    if c < cls0.len() {
                        assert(cls[c] == cls0[c]);
                    } else {
                        assert(cls[c] == clause);
                    }
                }
                assert forall|k: int| 0 <= k < t.len() && (#[trigger] t[k]).reason is Some implies reason_ok(
                    t,
                    a,
                    cls[t[k].reason->0 as int].literals@,
                    k,
                ) by {
                    reveal(trail_ok);
                    assert(cls[t[k].reason->0 as int] == cls0[t[k].reason->0 as int]);
                }
                let n = self.cnf_formula.variable_count as nat;
                assert forall|c: int| 0 <= c < cls.len() implies implied(self.original@, #[trigger] cls[c].literals@, n) by {
                    if c < cls0.len() {
                        assert(cls[c] == cls0[c]);
                    }
                }
                assert forall|c: int| 0 <= c < self.original@.len() implies #[trigger] cls[c].literals@ == self.original@[c] by {
                    assert(cls[c] == cls0[c]);
                }
                let q = self.unit_queue@;
                assert forall|p: int| 0 <= p < q.len() implies rest_false(a, cls[(#[trigger] q[p]) as int]) by {
                    if p < q.len() - 1 {
                        assert(q[p] == old(self).unit_queue@[p]);
                        assert(cls[q[p] as int] == cls0[q[p] as int]);
                    } else {
                        assert(cls[q[p] as int] == clause);
                    }
                }
            }
        }
        clause_id
    }

    /// Halves every literal's priority and adds its conflict counter (the sum saturating at the
    /// largest `usize`), then sets every counter back to 0.
    fn decay_literal_priorities(&mut self)
        requires
            old(self).wf(),
        ensures
            final(self).wf(),
            final(self).original == old(self).original,
            final(self).sound == old(self).sound,
            final(self).cnf_formula == old(self).cnf_formula,
            final(self).implication_graph == old(self).implication_graph,
            final(self).status == old(self).status,
            final(self).unit_queue == old(self).unit_queue,
            final(self).stats == old(self).stats,
            forall|l: Literal|
                #![trigger pq_priorities(final(self).lit_prio)[l]]
                all_lits(old(self).cnf_formula.variable_count as int).contains(l) ==> pq_priorities(
                    final(self).lit_prio,
                )[l] == saturating_sum(
                    (pq_priorities(old(self).lit_prio)[l] / 2) as usize,
                    old(self).lit_counter@[l] as int,
                ),
            forall|l: Literal|
                all_lits(old(self).cnf_formula.variable_count as int).contains(l) ==> #[trigger] final(self).lit_counter@[l] == 0,
    {
        let n = self.cnf_formula.variable_count as i32;
        let ghost lits = all_lits(n as int);
        let ghost p0 = pq_priorities(self.lit_prio);
        let ghost c0 = self.lit_counter@;
        let mut lit = -n;
        while lit <= n
            invariant
                n == old(self).cnf_formula.variable_count,
                lits == all_lits(n as int),
                p0 == pq_priorities(old(self).lit_prio),
                c0 == old(self).lit_counter@,
                -n <= lit <= n + 1,
                self.original == old(self).original,
                self.sound == old(self).sound,
                self.cnf_formula == old(self).cnf_formula,
                self.implication_graph == old(self).implication_graph,
                self.status == old(self).status,
                self.unit_queue == old(self).unit_queue,
                self.stats == old(self).stats,
                self.wf(),
                forall|l: Literal|
                    #![trigger pq_priorities(self.lit_prio)[l]]
                    lits.contains(l) ==> pq_priorities(self.lit_prio)[l] == if l < lit {
                        saturating_sum((p0[l] / 2) as usize, c0[l] as int)
                    } else {
                        p0[l]
                    },
                forall|l: Literal|
                    lits.contains(l) ==> #[trigger] self.lit_counter@[l] == if l < lit {
                        0
                    } else {
                        c0[l]
                    },
            decreases n + 1 - lit,
        {
            if lit != 0 {
                assert(lits.contains(lit));
                let p = pq_get_priority(&self.lit_prio, lit).unwrap();
                let c = fx_map_get(&self.lit_counter, lit).unwrap();
                let ghost pq1 = pq_priorities(self.lit_prio);
                pq_change_priority(&mut self.lit_prio, lit, (p / 2).saturating_add(c));
                fx_map_insert(&mut self.lit_counter, lit, 0);
                proof {
                    assert(pq_priorities(self.lit_prio).dom() =~= pq1.dom());
                    assert(self.lit_counter@.dom() =~= lits);
                }
            }
            lit = lit + 1;
        }
    }

    /// Counts one more conflict for each literal of a learned clause, as often as it occurs
    /// there (saturating at the largest `usize`).
    fn bump_literal_counters(&mut self, literals: &Literals)
        requires
            old(self).wf(),
            lits_in_range(literals@, old(self).cnf_formula.variable_count as int),
        ensures
            final(self).wf(),
            final(self).original == old(self).original,
            final(self).sound == old(self).sound,
            final(self).cnf_formula == old(self).cnf_formula,
            final(self).implication_graph == old(self).implication_graph,
            final(self).status == old(self).status,
            final(self).unit_queue == old(self).unit_queue,
            final(self).stats == old(self).stats,
            final(self).lit_prio == old(self).lit_prio,
            forall|l: Literal|
                all_lits(old(self).cnf_formula.variable_count as int).contains(l) ==> #[trigger] final(self).lit_counter@[l] == saturating_sum(
                    old(self).lit_counter@[l],
                    occurrences(literals@, l) as int,
                ),
    {
        let ghost lits = all_lits(self.cnf_formula.variable_count as int);
        let ghost c0 = self.lit_counter@;
        let m = literals.len();
        let mut i: usize = 0;
        while i < m
            invariant
                m == literals@.len(),
                i <= m,
                lits == all_lits(old(self).cnf_formula.variable_count as int),
                c0 == old(self).lit_counter@,
                lits_in_range(literals@, old(self).cnf_formula.variable_count as int),
                self.original == old(self).original,
                self.sound == old(self).sound,
                self.cnf_formula == old(self).cnf_formula,
                self.implication_graph == old(self).implication_graph,
                self.status == old(self).status,
                self.unit_queue == old(self).unit_queue,
                self.stats == old(self).stats,
                self.lit_prio == old(self).lit_prio,
                self.wf(),
                forall|l: Literal|
                    lits.contains(l) ==> #[trigger] self.lit_counter@[l] == saturating_sum(
                        c0[l],
                        occurrences(literals@.subrange(0, i as int), l) as int,
                    ),
            decreases m - i,
        {
            let lit = literals.get(i);
            assert(lits.contains(lit));
            let c = fx_map_get(&self.lit_counter, lit).unwrap();
            let ghost cm = self.lit_counter@;
            fx_map_insert(&mut self.lit_counter, lit, c.saturating_add(1));
            proof {
                assert(self.lit_counter@.dom() =~= lits);
                let pre = literals@.subrange(0, i as int);
                assert(literals@.subrange(0, i + 1) =~= pre.push(lit));
                assert forall|l: Literal| lits.contains(l) implies #[trigger] self.lit_counter@[l]
                    == saturating_sum(c0[l], occurrences(literals@.subrange(0, i + 1), l) as int) by {
                    pre.lemma_filter_push(lit, |x: i32| x == l);
                    assert(cm[l] == saturating_sum(c0[l], occurrences(pre, l) as int));
                }
            }
            i = i + 1;
        }
        assert(literals@.subrange(0, m as int) =~= literals@);
    }

    /// The unassigned literal of highest priority (among equals, the first that the priority
    /// queue hands out).
    fn pick_branching_literal(&self) -> (r: Literal)
        requires
            self.wf(),
            exists|i: int|
                0 <= i < self.cnf_formula.assignments@.len() && self.cnf_formula.assignments@[i] is None,
        ensures
            all_lits(self.cnf_formula.variable_count as int).contains(r),
            self.cnf_formula.assignments@[var_of(r) - 1] is None,
            forall|l: Literal|
                all_lits(self.cnf_formula.variable_count as int).contains(l)
                    && self.cnf_formula.assignments@[var_of(l) - 1] is None ==> pq_priorities(
                    self.lit_prio,
                )[l] <= pq_priorities(self.lit_prio)[r],
    {
        let items = pq_sorted_items(&self.lit_prio);
        let ghost lits = all_lits(self.cnf_formula.variable_count as int);
        let ghost pq = pq_priorities(self.lit_prio);
        let mut i: usize = 0;
        while i < items.len()
            invariant
                self.wf(),
                i <= items@.len(),
                lits == all_lits(self.cnf_formula.variable_count as int),
                pq == pq_priorities(self.lit_prio),
                items@.len() == pq.dom().len(),
                forall|k: int|
                    0 <= k < items@.len() ==> pq.contains_key((#[trigger] items@[k]).0) && items@[k].1
                        == pq[items@[k].0],
                forall|l: Literal| pq.contains_key(l) ==> exists|k: int| 0 <= k < items@.len() && (#[trigger] items@[k]).0 == l,
                forall|a: int, b: int| 0 <= a < b < items@.len() ==> items@[a].1 >= items@[b].1 && items@[a].0 != items@[b].0,
                forall|k: int|
                    0 <= k < i ==> self.cnf_formula.assignments@[var_of((#[trigger] items@[k]).0) - 1] is Some,
            decreases items@.len() - i,
        {
            let lit = items[i].0;
            assert(lits.contains(lit));
            let v = lit_var(lit);
            if self.cnf_formula.assignments[(v - 1) as usize].is_none() {
                proof {
                    assert forall|l: Literal|
                        lits.contains(l) && self.cnf_formula.assignments@[var_of(l) - 1] is None implies pq[l]
                            <= pq[lit] by {
                        let k = choose|k: int| 0 <= k < items@.len() && (#[trigger] items@[k]).0 == l;
                        if k < i {
                            assert(self.cnf_formula.assignments@[var_of(items@[k].0) - 1] is Some);
                        } else if k > i {
                            assert(items@[i as int].1 >= items@[k].1);
                        }
                    }
                }
                return lit;
            }
            i = i + 1;
        }
        proof {
            let v = choose|v: int|
                0 <= v < self.cnf_formula.assignments@.len() && self.cnf_formula.assignments@[v] is None;
            let l = (v + 1) as i32;
            assert(lits.contains(l));
            let k = choose|k: int| 0 <= k < items@.len() && (#[trigger] items@[k]).0 == l;
            assert(self.cnf_formula.assignments@[var_of(items@[k].0) - 1] is Some);
        }
        0
    }

    /// With every variable assigned and no conflict, a state that keeps what a model needs
    /// satisfies every clause, those it started from among them.
    proof fn lemma_sat_model(&self, start: &Cdcl)
        requires
            self.wf(),
            self.sound@,
            self.search_ok(),
            !(self.status is Conflict),
            forall|i: int|
                0 <= i < self.cnf_formula.assignments@.len() ==> self.cnf_formula.assignments@[i] is Some,
            start.cnf_formula.clauses@.len() <= self.cnf_formula.clauses@.len(),
            forall|c: int|
                0 <= c < start.cnf_formula.clauses@.len() ==> (#[trigger] self.cnf_formula.clauses@[c]).literals@
                    == start.cnf_formula.clauses@[c].literals@,
        ensures
            forall|c: int|
                0 <= c < start.cnf_formula.clauses@.len() ==> clause_satisfied(
                    self.cnf_formula.assignments@,
                    #[trigger] start.cnf_formula.clauses@[c].literals@,
                ),
    {
        crate::dpll::dpll::lemma_alive_all_assigned_satisfied(self.cnf_formula.assignments@, self.cnf_formula.clauses@);
        assert forall|c: int| 0 <= c < start.cnf_formula.clauses@.len() implies clause_satisfied(
            self.cnf_formula.assignments@,
            #[trigger] start.cnf_formula.clauses@[c].literals@,
        ) by {
            assert(self.cnf_formula.clauses@[c].literals@ == start.cnf_formula.clauses@[c].literals@);
        }
    }

    /// At decision level 0 every assignment on the trail has a reason, so a model of the
    /// original clauses gives each variable on the trail the value the trail gives it.
    proof fn lemma_model_follows_trail(&self, m: Seq<bool>, k: int)
        requires
            self.wf(),
            self.sound@,
            self.search_ok(),
            self.implication_graph.starts().len() == 0,
            is_model(m, self.original@, self.cnf_formula.variable_count as nat),
            0 <= k <= self.implication_graph.trail().len(),
        ensures
            forall|j: int|
                0 <= j < k ==> m[(#[trigger] self.implication_graph.trail()[j]).variable_id - 1]
                    == self.implication_graph.trail()[j].value,
        decreases k,
    {
        if k > 0 {
            self.lemma_model_follows_trail(m, k - 1);
            let t = self.implication_graph.trail();
            let a = self.cnf_formula.assignments@;
            let j = k - 1;
            reveal(trail_ok);
            if t[j].reason is None {
                assert(self.implication_graph.starts().contains(j as usize));
            }
            let lits = self.cnf_formula.clauses@[t[j].reason->0 as int].literals@;
            assert(implied(self.original@, lits, self.cnf_formula.variable_count as nat));
            assert(satisfied_by(m, lits));
            let i = choose|i: int| 0 <= i < lits.len() && holds(m, #[trigger] lits[i]);
            assert(reason_ok(t, a, lits, j));
            assert(reason_lit_ok(t, a, lits[i], j));
            if var_of(lits[i]) != t[j].variable_id {
                let j2 = choose|j2: int| 0 <= j2 < j && t[j2].variable_id == var_of(lits[i]);
                assert(m[t[j2].variable_id - 1] == t[j2].value);
                assert(a[t[j2].variable_id - 1] == Some(t[j2].value));
            }
        }
    }

    /// A conflict at decision level 0 leaves the original clauses without a model.
    proof fn lemma_no_model(&self, m: Seq<bool>)
        requires
            self.wf(),
            self.sound@,
            self.search_ok(),
            self.status is Conflict,
            self.implication_graph.starts().len() == 0,
        ensures
            !is_model(m, self.original@, self.cnf_formula.variable_count as nat),
    {
        let n = self.cnf_formula.variable_count as nat;
        if is_model(m, self.original@, n) {
            let t = self.implication_graph.trail();
            let a = self.cnf_formula.assignments@;
            self.lemma_model_follows_trail(m, t.len() as int);
            let lits = self.cnf_formula.clauses@[self.status->Conflict_0 as int].literals@;
            assert(implied(self.original@, lits, n));
            assert(satisfied_by(m, lits));
            let i = choose|i: int| 0 <= i < lits.len() && holds(m, #[trigger] lits[i]);
            assert(lit_false(a, lits[i]));
            reveal(trail_ok);
            assert(clause_wf(self.cnf_formula.clauses@[self.status->Conflict_0 as int], n as int));
            let v = var_of(lits[i]) - 1;
            assert(a[v] is Some);
            let j = choose|j: int| 0 <= j < t.len() && t[j].variable_id == v + 1;
            assert(m[t[j].variable_id - 1] == t[j].value);
        }
    }

    /// A model of every clause is a model of the original clauses, which come first.
    proof fn lemma_model_of_original(&self, m: Seq<bool>)
        requires
            self.sound@,
            self.search_ok(),
            is_model(m, clause_lits(self.cnf_formula.clauses@), self.cnf_formula.variable_count as nat),
        ensures
            is_model(m, self.original@, self.cnf_formula.variable_count as nat),
    {
        assert forall|c: int| 0 <= c < self.original@.len() implies satisfied_by(m, #[trigger] self.original@[c]) by {
            assert(clause_lits(self.cnf_formula.clauses@)[c] == self.cnf_formula.clauses@[c].literals@);
            assert(satisfied_by(m, clause_lits(self.cnf_formula.clauses@)[c]));
        }
    }

    /// A conflict at decision level 0 leaves the clauses the search started from without a
    /// model.
    proof fn lemma_unsat_answer(&self, start: &Cdcl)
        requires
            self.wf(),
            self.sound@,
            self.search_ok(),
            self.status is Conflict,
            self.implication_graph.starts().len() == 0,
            start.sound == self.sound,
            start.search_ok(),
            start.original == self.original,
            start.cnf_formula.variable_count == self.cnf_formula.variable_count,
        ensures
            forall|m: Seq<bool>|
                !is_model(m, clause_lits(start.cnf_formula.clauses@), start.cnf_formula.variable_count as nat),
    {
        assert forall|m: Seq<bool>|
            !is_model(m, clause_lits(start.cnf_formula.clauses@), start.cnf_formula.variable_count as nat) by {
            self.lemma_no_model(m);
            if is_model(m, clause_lits(start.cnf_formula.clauses@), start.cnf_formula.variable_count as nat) {
                start.lemma_model_of_original(m);
            }
        }
    }

    /// Searches for a satisfying assignment. Each round first propagates the unit clauses; a
    /// conflict at decision level 0 answers `Unsat`; any other conflict yields a learned clause:
    /// the solver counts its literals, jumps back to the level the clause gives, adds the clause
    /// and restarts when the restart heuristic asks for it; without a conflict the unassigned
    /// literal of highest priority is decided, unless every variable is assigned (`Sat`). Every
    /// 255 rounds the literal priorities decay.
    ///
    /// A formula without clauses is `Sat` at once. The search gives up with `Incomplete` after
    /// as many rounds as a `usize` can count, where the clause IDs run out, or where conflict
    /// analysis gives no clause to learn or no lower decision level to jump back to. The last
    /// two never happen to a search that started sound on clauses that repeat no literal: there
    /// `Incomplete` means that the rounds or the clause IDs ran out.
    #[verifier::spinoff_prover]
    #[verifier::rlimit(100)]
    pub fn solve(&mut self) -> (r: CdclStatus)
        requires
            old(self).wf(),
            old(self).search_ok(),
        ensures
            final(self).wf(),
            old(self).sound@ && r == CdclStatus::Unsat ==> forall|m: Seq<bool>|
                !is_model(m, clause_lits(old(self).cnf_formula.clauses@), old(self).cnf_formula.variable_count as nat),
            old(self).sound@ && r == CdclStatus::Sat ==> forall|c: int|
                0 <= c < old(self).cnf_formula.clauses@.len() ==> clause_satisfied(
                    final(self).cnf_formula.assignments@,
                    #[trigger] old(self).cnf_formula.clauses@[c].literals@,
                ),
            !(r is Conflict),
            final(self).cnf_formula.variable_count == old(self).cnf_formula.variable_count,
            old(self).cnf_formula.clauses@.len() == 0 ==> r == CdclStatus::Sat,
            r == CdclStatus::Sat && old(self).cnf_formula.clauses@.len() > 0 ==> forall|i: int|
                0 <= i < final(self).cnf_formula.assignments@.len()
                    ==> final(self).cnf_formula.assignments@[i] is Some,
            r == CdclStatus::Unsat ==> old(self).status == CdclStatus::Unsat || (final(self).status is Conflict
                && final(self).implication_graph.starts().len() == 0),
            old(self).sound@ && clauses_no_repeats(old(self).cnf_formula.clauses@) && r == CdclStatus::Incomplete
                ==> final(self).cnf_formula.current_id == usize::MAX || final(self).steps@ == (
            if old(self).stats.conflict_count < old(self).stats.number_of_restarts {
                usize::MAX - old(self).stats.number_of_restarts
            } else {
                usize::MAX - old(self).stats.conflict_count
            }),
    {
        if self.cnf_formula.clauses.len() == 0 {
            return CdclStatus::Sat;
        }
        let ghost owed = self.sound@ && clauses_no_repeats(self.cnf_formula.clauses@);
        proof {
            self.steps = Ghost(0);
        }
        let ghost n = self.cnf_formula.variable_count;
        let c0 = self.stats.conflict_count;
        let r0 = self.stats.number_of_restarts;
        let budget: usize = if c0 < r0 {
            usize::MAX - r0
        } else {
            usize::MAX - c0
        };
        let mut steps: usize = 0;
        let mut count: u32 = 0;
        while steps < budget
            invariant
                self.wf(),
                self.cnf_formula.variable_count == n,
                n == old(self).cnf_formula.variable_count,
                old(self).cnf_formula.clauses@.len() > 0,
                self.cnf_formula.clauses@.len() > 0,
                count < 255,
                budget <= usize::MAX - c0,
                budget <= usize::MAX - r0,
                steps <= budget,
                self.stats.conflict_count <= c0 + steps,
                self.stats.number_of_restarts <= r0 + steps,
                self.status == CdclStatus::Unsat ==> old(self).status == CdclStatus::Unsat,
                self.sound == old(self).sound,
                self.original == old(self).original,
                self.search_ok(),
                old(self).search_ok(),
                old(self).cnf_formula.clauses@.len() <= self.cnf_formula.clauses@.len(),
                forall|c: int|
                    0 <= c < old(self).cnf_formula.clauses@.len() ==> (#[trigger] self.cnf_formula.clauses@[c]).literals@
                        == old(self).cnf_formula.clauses@[c].literals@,
                self.steps@ == steps,
                owed == (old(self).sound@ && clauses_no_repeats(old(self).cnf_formula.clauses@)),
                owed ==> clauses_no_repeats(self.cnf_formula.clauses@),
            decreases budget - steps,
        {
            steps = steps + 1;
            let ghost now: nat = self.steps@ + 1;
            count = count + 1;
            if count == 255 {
                count = 0;
                self.decay_literal_priorities();
            }
            let ghost cls1 = self.cnf_formula.clauses@;
            self.propagate_unit_clauses();
            assert(owed ==> clauses_no_repeats(self.cnf_formula.clauses@)) by {
                if owed {
                    lemma_no_repeats_kept(cls1, self.cnf_formula.clauses@);
                }
            }
            match self.status {
                CdclStatus::Sat | CdclStatus::Unsat => {
                    proof {
                        if self.sound@ && self.status == CdclStatus::Sat {
                            self.lemma_sat_model(&*old(self));
                        }
                    }
                    return self.status;
                },
                CdclStatus::Conflict(conflict_clause_id) => {
                    if self.implication_graph.get_current_decision_level() == 0 {
                        proof {
                            if self.sound@ {
                                self.lemma_unsat_answer(&*old(self));
                            }
                        }
                        return CdclStatus::Unsat;
                    }
                    let ghost t0 = self.implication_graph.trail();
                    let ghost st0 = self.implication_graph.starts();
                    let ghost a0 = self.cnf_formula.assignments@;
                    assert(owed ==> self.cnf_formula.clauses@[conflict_clause_id as int].literals@.no_duplicates()
                        && crate::cdcl::conflict_analysis::count_on(
                        self.cnf_formula.clauses@[conflict_clause_id as int].literals@,
                        crate::cdcl::conflict_analysis::current_level_vars(
                            self.implication_graph.trail(),
                            self.implication_graph.starts(),
                        ),
                    ) >= 1) by {
                        if owed {
                            let c = conflict_clause_id as int;
                            assert(clause_wf(self.cnf_formula.clauses@[c], self.cnf_formula.variable_count as int));
                            assert(self.implication_graph.starts()[self.implication_graph.starts().len() - 1]
                                < self.implication_graph.trail().len());
                            lemma_trail_entry(
                                self.implication_graph.trail(),
                                self.cnf_formula,
                                self.implication_graph.trail().len() - 1,
                            );
                            lemma_conflict_current(
                                self.implication_graph.trail(),
                                self.implication_graph.starts(),
                                a0,
                                self.cnf_formula.clauses@[c],
                                self.cnf_formula.variable_count as int,
                            );
                            lemma_no_repeats_at(self.cnf_formula.clauses@, c);
                        }
                    }
                    let learned = match self.generate_learned_clause(
                        &self.cnf_formula.clauses[conflict_clause_id],
                    ) {
                        Some(l) => l,
                        None => {
                            proof {
                                self.steps = Ghost(now);
                            }
                            return CdclStatus::Incomplete;
                        },
                    };
                    self.bump_literal_counters(&learned);
                    let ghost old_learned = learned;
                    assert(owed ==> crate::cdcl::conflict_analysis::all_on_trail(self.implication_graph.trail(), learned@)) by {
                        if owed {
                            lemma_false_on_trail(self.implication_graph.trail(), self.cnf_formula, learned@);
                        }
                    }
                    let level = match self.get_backjump_level_for_learned_clause(&learned) {
                        Some(b) => b,
                        None => {
                            proof {
                                self.steps = Ghost(now);
                            }
                            return CdclStatus::Incomplete;
                        },
                    };
                    assert(owed && learned@.len() >= 2 ==> level < self.implication_graph.starts().len()) by {
                        if owed && learned@.len() >= 2 {
                            lemma_trail_distinct(self.implication_graph.trail(), self.cnf_formula);
                            crate::cdcl::conflict_analysis::lemma_backjump_below(
                                self.implication_graph.trail(),
                                self.implication_graph.starts(),
                                learned@,
                                level,
                            );
                        }
                    }
                    if level >= self.implication_graph.get_current_decision_level() {
                        proof {
                                self.steps = Ghost(now);
                            }
                            return CdclStatus::Incomplete;
                    }
                    let learned = self.watch_order(&learned);
                    proof {
                        crate::cdcl::conflict_analysis::lemma_in_range_permuted(
                            old_learned@,
                            learned@,
                            self.cnf_formula.variable_count as int,
                        );
                    }
                    let ghost cls5 = self.cnf_formula.clauses@;
                    self.backjump(level);
                    assert(owed ==> clauses_no_repeats(self.cnf_formula.clauses@)) by {
                        if owed {
                            lemma_no_repeats_kept(cls5, self.cnf_formula.clauses@);
                        }
                    }
                    proof {
                        if self.sound@ {
                            reveal(trail_ok);
                            lemma_jump_ready(t0, st0, a0, self.cnf_formula.assignments@, old_learned@, learned@, level);
                            lemma_implied_permuted(
                                self.original@,
                                self.cnf_formula.variable_count as nat,
                                old_learned@,
                                learned@,
                            );
                        }
                    }
                    if self.cnf_formula.current_id == usize::MAX {
                        proof {
                                self.steps = Ghost(now);
                            }
                            return CdclStatus::Incomplete;
                    }
                    let ghost cls2 = self.cnf_formula.clauses@;
                    assert(owed ==> learned@.no_duplicates()) by {
                        if owed {
                            crate::cdcl::conflict_analysis::lemma_permuted_no_duplicates(old_learned@, learned@);
                        }
                    }
                    self.learn_clause(learned);
                    assert(owed ==> clauses_no_repeats(self.cnf_formula.clauses@)) by {
                        if owed {
                            lemma_no_repeats_push(cls2, self.cnf_formula.clauses@);
                        }
                    }
                    self.stats.conflict_count = self.stats.conflict_count + 1;
                    if self.restart_heuristic.should_restart(&self.stats) {
                        let ghost cls3 = self.cnf_formula.clauses@;
                        self.restart();
                        assert(owed ==> clauses_no_repeats(self.cnf_formula.clauses@)) by {
                            if owed {
                                lemma_no_repeats_kept(cls3, self.cnf_formula.clauses@);
                            }
                        }
                    }
                },
                CdclStatus::Incomplete => {
                    if self.cnf_formula.all_assigned() {
                        proof {
                            if self.sound@ {
                                self.lemma_sat_model(&*old(self));
                            }
                        }
                        return CdclStatus::Sat;
                    }
                    let lit = self.pick_branching_literal();
                    let ghost cls4 = self.cnf_formula.clauses@;
                    self.decide(Assignment::new(lit_var(lit), lit > 0, None));
                    assert(owed ==> clauses_no_repeats(self.cnf_formula.clauses@)) by {
                        if owed {
                            lemma_no_repeats_kept(cls4, self.cnf_formula.clauses@);
                        }
                    }
                },
            }
            proof {
                self.steps = Ghost(now);
            }
        }
        CdclStatus::Incomplete
    }
}

} // verus!
