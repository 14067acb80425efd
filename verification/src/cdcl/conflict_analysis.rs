use crate::cdcl::assignment::Assignment;
use crate::cdcl::cdcl::{holds, implied, is_model, satisfied_by, trail_ok, Cdcl};
use crate::cdcl::implication_graph::{first_position, lemma_level_at, level_at, vars_from};
use crate::cnf::clause::{clause_wf, Clause};
use crate::cnf::literals::{
    clause_falsified, lit_false, lit_unassigned, lits_in_range, sorted_lt, var_of, Literals, VariableId,
};
use vstd::prelude::*;

verus! {

/// The variables assigned at the current decision level.
pub open spec fn current_level_vars(t: Seq<Assignment>, starts: Seq<usize>) -> Seq<VariableId> {
    if starts.len() == 0 {
        Seq::<VariableId>::empty()
    } else {
        t.subrange(starts.last() as int, t.len() as int).map_values(|a: Assignment| a.variable_id)
    }
}

/// How many literals speak of one of the variables.
pub open spec fn count_on(lits: Seq<i32>, vars: Seq<VariableId>) -> nat {
    lits.filter(|l: i32| vars.contains(var_of(l) as VariableId)).len()
}

/// No two literals speak of the same variable.
pub open spec fn distinct_vars(lits: Seq<i32>) -> bool {
    forall|i: int, j: int| 0 <= i < j < lits.len() ==> var_of(#[trigger] lits[i]) != var_of(#[trigger] lits[j])
}

/// Every literal's variable stands on the trail at a position no greater than `bound`.
pub open spec fn on_trail_upto(t: Seq<Assignment>, lits: Seq<i32>, bound: int) -> bool {
    forall|i: int|
        0 <= i < lits.len() ==> exists|k: int| 0 <= k <= bound && #[trigger] t[k].variable_id == var_of(#[trigger] lits[i])
}

/// Distinct literals that are all false speak of distinct variables.
pub proof fn lemma_false_distinct_vars(a: Seq<Option<bool>>, lits: Seq<i32>)
    requires
        clause_falsified(a, lits),
        forall|i: int, j: int| 0 <= i < j < lits.len() ==> lits[i] != lits[j],
    ensures
        distinct_vars(lits),
{
    assert forall|i: int, j: int| 0 <= i < j < lits.len() implies var_of(#[trigger] lits[i]) != var_of(#[trigger] lits[j]) by {
        assert(lit_false(a, lits[i]));
        assert(lit_false(a, lits[j]));
    }
}

/// A literal of one of the variables makes the count positive.
pub proof fn lemma_count_positive(lits: Seq<i32>, vars: Seq<VariableId>, i: int)
    requires
        0 <= i < lits.len(),
        vars.contains(var_of(lits[i]) as VariableId),
    ensures
        count_on(lits, vars) >= 1,
{
    lits.lemma_filter_contains(|l: i32| vars.contains(var_of(l) as VariableId), i);
}

/// A positive count has a witness.
proof fn lemma_count_witness(lits: Seq<i32>, vars: Seq<VariableId>)
    requires
        count_on(lits, vars) >= 1,
    ensures
        exists|i: int| 0 <= i < lits.len() && vars.contains(var_of(#[trigger] lits[i]) as VariableId),
{
    let pred = |l: i32| vars.contains(var_of(l) as VariableId);
    let f = lits.filter(pred);
    lits.lemma_filter_pred(pred, 0);
    assert(f.contains(f[0]));
    lits.lemma_filter_contains_rev(pred, f[0]);
    let i = choose|i: int| 0 <= i < lits.len() && lits[i] == f[0];
    assert(vars.contains(var_of(lits[i]) as VariableId));
}

/// With two literals of the variables and no variable twice, one of them is not of `p`.
proof fn lemma_count_other(lits: Seq<i32>, vars: Seq<VariableId>, p: int)
    requires
        count_on(lits, vars) >= 2,
        distinct_vars(lits),
    ensures
        exists|i: int|
            0 <= i < lits.len() && vars.contains(var_of(#[trigger] lits[i]) as VariableId) && var_of(lits[i]) != p,
    decreases lits.len(),
{
    let pred = |l: i32| vars.contains(var_of(l) as VariableId);
    let pre = lits.drop_last();
    let x = lits.last();
    assert(lits =~= pre.push(x));
    pre.lemma_filter_push(x, pred);
    assert(distinct_vars(pre)) by {
        assert forall|i: int, j: int| 0 <= i < j < pre.len() implies var_of(#[trigger] pre[i]) != var_of(#[trigger] pre[j]) by {
            assert(lits[i] == pre[i] && lits[j] == pre[j]);
        }
    }
    if pred(x) {
        if var_of(x) != p {
            assert(vars.contains(var_of(lits[lits.len() - 1]) as VariableId));
        } else {
            lemma_count_witness(pre, vars);
            let i = choose|i: int| 0 <= i < pre.len() && vars.contains(var_of(#[trigger] pre[i]) as VariableId);
            assert(lits[i] == pre[i]);
            assert(var_of(lits[i]) != var_of(lits[lits.len() - 1]));
        }
    } else {
        lemma_count_other(pre, vars, p);
        let i = choose|i: int|
            0 <= i < pre.len() && vars.contains(var_of(#[trigger] pre[i]) as VariableId) && var_of(pre[i]) != p;
        assert(lits[i] == pre[i]);
    }
}

/// The trail holds each variable at most once.
pub open spec fn trail_distinct(t: Seq<Assignment>) -> bool {
    forall|i: int, j: int| 0 <= i < j < t.len() ==> t[i].variable_id != t[j].variable_id
}

/// A variable of the current decision level stands on the trail at or after the level's start.
proof fn lemma_current_position(t: Seq<Assignment>, st: Seq<usize>, v: VariableId) -> (m: int)
    requires
        st.len() > 0,
        st.last() <= t.len(),
        current_level_vars(t, st).contains(v),
    ensures
        st.last() <= m < t.len(),
        t[m].variable_id == v,
{
    let cur = current_level_vars(t, st);
    let big = st.last() as int;
    let w = choose|w: int| 0 <= w < cur.len() && cur[w] == v;
    assert(t.subrange(big, t.len() as int)[w].variable_id == cur[w]);
    big + w
}

/// Where two literals of the current decision level are left, the latest position of the
/// clause's variables lies beyond the level's start.
proof fn lemma_two_current(t: Seq<Assignment>, st: Seq<usize>, lits: Seq<i32>, bound: int)
    requires
        st.len() > 0,
        st.last() < t.len(),
        trail_distinct(t),
        bound < t.len(),
        on_trail_upto(t, lits, bound),
        distinct_vars(lits),
        count_on(lits, current_level_vars(t, st)) >= 2,
    ensures
        bound > st.last(),
{
    let cur = current_level_vars(t, st);
    lemma_count_witness(lits, cur);
    let i1 = choose|i: int| 0 <= i < lits.len() && cur.contains(var_of(#[trigger] lits[i]) as VariableId);
    lemma_count_other(lits, cur, var_of(lits[i1]));
    let i2 = choose|i: int|
        0 <= i < lits.len() && cur.contains(var_of(#[trigger] lits[i]) as VariableId) && var_of(lits[i]) != var_of(
            lits[i1],
        );
    let m1 = lemma_current_position(t, st, var_of(lits[i1]) as VariableId);
    let m2 = lemma_current_position(t, st, var_of(lits[i2]) as VariableId);
    let k1 = choose|k: int| 0 <= k <= bound && #[trigger] t[k].variable_id == var_of(lits[i1]);
    let k2 = choose|k: int| 0 <= k <= bound && #[trigger] t[k].variable_id == var_of(lits[i2]);
    assert(k1 == m1) by {
        if k1 < m1 {
            assert(t[k1].variable_id != t[m1].variable_id);
        } else if k1 > m1 {
            assert(t[m1].variable_id != t[k1].variable_id);
        }
    }
    assert(k2 == m2) by {
        if k2 < m2 {
            assert(t[k2].variable_id != t[m2].variable_id);
        } else if k2 > m2 {
            assert(t[m2].variable_id != t[k2].variable_id);
        }
    }
}

/// The latest assignment among the clause's variables, with two literals of the current
/// decision level left, lies beyond the level's start and within the bound; some literal of
/// the current level speaks of another variable.
proof fn lemma_latest_current(t: Seq<Assignment>, st: Seq<usize>, lits: Seq<i32>, bound: int, kk: int) -> (i2: int)
    requires
        st.len() > 0,
        st.last() < t.len(),
        trail_distinct(t),
        bound < t.len(),
        on_trail_upto(t, lits, bound),
        distinct_vars(lits),
        count_on(lits, current_level_vars(t, st)) >= 2,
        0 <= kk < t.len(),
        exists|j: int| 0 <= j < lits.len() && var_of(lits[j]) == t[kk].variable_id,
        forall|m: int, j: int| kk < m < t.len() && 0 <= j < lits.len() ==> var_of(lits[j]) != t[m].variable_id,
    ensures
        st.last() < kk <= bound,
        0 <= i2 < lits.len(),
        current_level_vars(t, st).contains(var_of(lits[i2]) as VariableId),
        var_of(lits[i2]) != t[kk].variable_id,
{
    let cur = current_level_vars(t, st);
    let pv = t[kk].variable_id as int;
    lemma_count_other(lits, cur, pv);
    let i2 = choose|i: int|
        0 <= i < lits.len() && cur.contains(var_of(#[trigger] lits[i]) as VariableId) && var_of(lits[i]) != pv;
    let m2 = lemma_current_position(t, st, var_of(lits[i2]) as VariableId);
    assert(m2 <= kk) by {
        if m2 > kk {
            assert(var_of(lits[i2]) != t[m2].variable_id);
        }
    }
    let j0 = choose|j: int| 0 <= j < lits.len() && var_of(lits[j]) == t[kk].variable_id;
    let k0 = choose|k: int| 0 <= k <= bound && #[trigger] t[k].variable_id == var_of(lits[j0]);
    assert(k0 == kk) by {
        if k0 < kk {
            assert(t[k0].variable_id != t[kk].variable_id);
        } else if k0 > kk {
            assert(t[kk].variable_id != t[k0].variable_id);
        }
    }
    i2
}

/// One resolution step on the latest variable keeps the learned clause's variables distinct and
/// on the trail before that variable's position, with a literal of the current level left.
proof fn lemma_step_kept(
    t: Seq<Assignment>,
    a: Seq<Option<bool>>,
    cur: Seq<VariableId>,
    lits: Seq<i32>,
    b: Seq<i32>,
    r: Seq<i32>,
    bound: int,
    kk: int,
    i2: int,
)
    requires
        0 <= kk < t.len(),
        crate::cdcl::cdcl::reason_ok(t, a, b, kk),
        bound < t.len(),
        on_trail_upto(t, lits, bound),
        forall|m: int, j: int| kk < m < t.len() && 0 <= j < lits.len() ==> var_of(lits[j]) != t[m].variable_id,
        r.to_set() == lits.filter(|l: i32| var_of(l) != t[kk].variable_id as int).to_set() + b.filter(
            |l: i32| var_of(l) != t[kk].variable_id as int,
        ).to_set(),
        sorted_lt(r),
        clause_falsified(a, r),
        0 <= i2 < lits.len(),
        cur.contains(var_of(lits[i2]) as VariableId),
        var_of(lits[i2]) != t[kk].variable_id,
    ensures
        distinct_vars(r),
        count_on(r, cur) >= 1,
        on_trail_upto(t, r, kk - 1),
{
    let pv = t[kk].variable_id as int;
    let fa = lits.filter(|l: i32| var_of(l) != pv);
    let fb = b.filter(|l: i32| var_of(l) != pv);
    assert forall|i: int, j: int| 0 <= i < j < r.len() implies r[i] != r[j] by {
        assert(r[i] < r[j]);
    }
    lemma_false_distinct_vars(a, r);
    lits.lemma_filter_contains(|l: i32| var_of(l) != pv, i2);
    assert(fa.to_set().contains(lits[i2]));
    assert(r.to_set().contains(lits[i2]));
    let x2 = choose|x: int| 0 <= x < r.len() && r[x] == lits[i2];
    lemma_count_positive(r, cur, x2);
    assert forall|x: int| 0 <= x < r.len() implies exists|k: int|
        0 <= k <= kk - 1 && #[trigger] t[k].variable_id == var_of(#[trigger] r[x]) by {
        let l = r[x];
        assert(r.to_set().contains(l));
        if fa.to_set().contains(l) {
            lits.lemma_filter_contains_rev(|l: i32| var_of(l) != pv, l);
            let w = choose|w: int| 0 <= w < lits.len() && lits[w] == l;
            let fw = choose|fw: int| 0 <= fw < fa.len() && fa[fw] == l;
            lits.lemma_filter_pred(|l: i32| var_of(l) != pv, fw);
            let m = choose|k: int| 0 <= k <= bound && #[trigger] t[k].variable_id == var_of(lits[w]);
            assert(m <= kk) by {
                if m > kk {
                    assert(var_of(lits[w]) != t[m].variable_id);
                }
            }
            assert(m != kk);
        } else {
            assert(fb.to_set().contains(l));
            b.lemma_filter_contains_rev(|l: i32| var_of(l) != pv, l);
            let w = choose|w: int| 0 <= w < b.len() && b[w] == l;
            let fw = choose|fw: int| 0 <= fw < fb.len() && fb[fw] == l;
            b.lemma_filter_pred(|l: i32| var_of(l) != pv, fw);
            assert(crate::cdcl::cdcl::reason_lit_ok(t, a, b[w], kk));
            let j = choose|j: int| 0 <= j < kk && t[j].variable_id == var_of(b[w]);
        }
    }
}

/// Two literals of the variables at different positions make the count at least two.
proof fn lemma_count_two(lits: Seq<i32>, vars: Seq<VariableId>, i: int, j: int)
    requires
        0 <= i < lits.len(),
        0 <= j < lits.len(),
        i != j,
        vars.contains(var_of(lits[i]) as VariableId),
        vars.contains(var_of(lits[j]) as VariableId),
    ensures
        count_on(lits, vars) >= 2,
    decreases lits.len(),
{
    let pred = |l: i32| vars.contains(var_of(l) as VariableId);
    let pre = lits.drop_last();
    let x = lits.last();
    assert(lits =~= pre.push(x));
    pre.lemma_filter_push(x, pred);
    let last = lits.len() - 1;
    if i == last {
        assert(pre[j] == lits[j]);
        lemma_count_positive(pre, vars, j);
    } else if j == last {
        assert(pre[i] == lits[i]);
        lemma_count_positive(pre, vars, i);
    } else {
        assert(pre[i] == lits[i] && pre[j] == lits[j]);
        lemma_count_two(pre, vars, i, j);
    }
}

/// The level of a trail position is at most the number of levels, and it is the current
/// level exactly where the position lies at or after the current level's start.
proof fn lemma_level_current(st: Seq<usize>, p: int)
    requires
        st.len() > 0,
        forall|i: int, j: int| 0 <= i < j < st.len() ==> st[i] < st[j],
    ensures
        level_at(st, p) <= st.len(),
        (level_at(st, p) == st.len()) <==> st.last() <= p,
{
    crate::cdcl::implication_graph::lemma_level_at(st, p);
    assert(st[st.len() - 1] <= p <==> st.len() - 1 < level_at(st, p));
}

/// With exactly one literal of the current level among two or more, all on the trail, the
/// second highest level of the clause lies below the current one.
pub proof fn lemma_backjump_below(t: Seq<Assignment>, st: Seq<usize>, lits: Seq<i32>, b: usize)
    requires
        st.len() > 0,
        forall|i: int, j: int| 0 <= i < j < st.len() ==> st[i] < st[j],
        st.last() < t.len(),
        trail_distinct(t),
        all_on_trail(t, lits),
        lits.len() >= 2,
        count_on(lits, current_level_vars(t, st)) == 1,
        is_second_largest(clause_levels(t, st, lits), b),
    ensures
        b < st.len(),
{
    reveal(clause_levels);
    let lv = clause_levels(t, st, lits);
    let cur = current_level_vars(t, st);
    let big = st.last() as int;
    let (i, j) = choose|i: int, j: int|
        0 <= i < lv.len() && 0 <= j < lv.len() && i != j && lv[i] == b && lv[j] >= b && forall|k: int|
            0 <= k < lv.len() && k != i && k != j ==> lv[k] <= b;
    if b >= st.len() {
        assert forall|k: int| 0 <= k < lits.len() && lv[k] >= st.len() implies cur.contains(var_of(lits[k]) as VariableId) by {
            assert(first_position(t, var_of(#[trigger] lits[k])) is Some);
            let p = first_position(t, var_of(lits[k]))->0;
            lemma_level_current(st, p);
            assert(0 <= p < t.len() && t[p].variable_id == var_of(lits[k]));
            assert(big <= p);
            assert(t.subrange(big, t.len() as int)[p - big].variable_id == cur[p - big]);
        }
        let pi = first_position(t, var_of(lits[i]))->0;
        let pj = first_position(t, var_of(lits[j]))->0;
        assert(first_position(t, var_of(lits[i])) is Some);
        assert(first_position(t, var_of(lits[j])) is Some);
        lemma_level_current(st, pi);
        lemma_level_current(st, pj);
        lemma_count_two(lits, cur, i, j);
    }
}

/// A rearrangement of literals that repeat none repeats none.
pub proof fn lemma_permuted_no_duplicates(a: Seq<i32>, b: Seq<i32>)
    requires
        a.no_duplicates(),
        b.to_multiset() == a.to_multiset(),
    ensures
        b.no_duplicates(),
{
    a.lemma_multiset_has_no_duplicates();
    b.lemma_multiset_has_no_duplicates_conv();
}

/// The trail is no longer than the number of variables it assigns from `1..=n`.
proof fn lemma_cdcl_trail_len(t: Seq<Assignment>, n: int)
    requires
        n >= 0,
        forall|k: int| 0 <= k < t.len() ==> 1 <= (#[trigger] t[k]).variable_id <= n,
        forall|i: int, j: int| 0 <= i < j < t.len() ==> t[i].variable_id != t[j].variable_id,
    ensures
        t.len() <= n,
{
    let ids = t.map_values(|x: Assignment| x.variable_id as int);
    assert(ids.no_duplicates()) by {
        assert forall|i: int, j: int| 0 <= i < ids.len() && 0 <= j < ids.len() && i != j implies ids[i] != ids[j] by {
            if i < j {
                assert(t[i].variable_id != t[j].variable_id);
            } else {
                assert(t[j].variable_id != t[i].variable_id);
            }
        }
    }
    ids.unique_seq_to_set();
    vstd::set_lib::lemma_int_range(1, n + 1);
    assert(ids.to_set().subset_of(vstd::set_lib::set_int_range(1, n + 1))) by {
        assert forall|x: int| ids.to_set().contains(x) implies vstd::set_lib::set_int_range(1, n + 1).contains(x) by {
            let k = choose|k: int| 0 <= k < ids.len() && ids[k] == x;
            assert(1 <= t[k].variable_id <= n);
        }
    }
    vstd::set_lib::lemma_len_subset(ids.to_set(), vstd::set_lib::set_int_range(1, n + 1));
}

/// Resolving on variable `p` a clause whose literals of `p` are false under the value `v` with
/// one whose literals of `p` are true under it gives a clause that every model of `cs`
/// satisfies, where each of the two is.
pub proof fn lemma_resolvent_implied(
    cs: Seq<Seq<i32>>,
    n: nat,
    a: Seq<i32>,
    b: Seq<i32>,
    p: VariableId,
    v: bool,
    r: Seq<i32>,
)
    requires
        implied(cs, a, n),
        implied(cs, b, n),
        forall|i: int| 0 <= i < a.len() && var_of(#[trigger] a[i]) == p ==> (a[i] > 0) != v,
        forall|i: int| 0 <= i < b.len() && var_of(#[trigger] b[i]) == p ==> (b[i] > 0) == v,
        r.to_set() == a.filter(|l: i32| var_of(l) != p as int).to_set() + b.filter(
            |l: i32| var_of(l) != p as int,
        ).to_set(),
    ensures
        implied(cs, r, n),
{
    let pred = |l: i32| var_of(l) != p as int;
    assert forall|m: Seq<bool>| #[trigger] is_model(m, cs, n) implies satisfied_by(m, r) by {
        assert(satisfied_by(m, a) && satisfied_by(m, b));
        let i = choose|i: int| 0 <= i < a.len() && holds(m, #[trigger] a[i]);
        let j = choose|j: int| 0 <= j < b.len() && holds(m, #[trigger] b[j]);
        if var_of(a[i]) != p {
            a.lemma_filter_contains(pred, i);
            assert(a.filter(pred).to_set().contains(a[i]));
            assert(r.to_set().contains(a[i]));
            let x = choose|x: int| 0 <= x < r.len() && r[x] == a[i];
            assert(holds(m, r[x]));
        } else if var_of(b[j]) != p {
            b.lemma_filter_contains(pred, j);
            assert(b.filter(pred).to_set().contains(b[j]));
            assert(r.to_set().contains(b[j]));
            let x = choose|x: int| 0 <= x < r.len() && r[x] == b[j];
            assert(holds(m, r[x]));
        } else {
            assert((a[i] > 0) != v && (b[j] > 0) == v);
        }
    }
}

/// Exactly one literal speaks of one of the variables: there is one position whose literal
/// does, and no other.
pub proof fn lemma_count_on_one(lits: Seq<i32>, vars: Seq<VariableId>)
    requires
        count_on(lits, vars) == 1,
    ensures
        exists|u: int|
            0 <= u < lits.len() && vars.contains(var_of(#[trigger] lits[u]) as VariableId) && forall|k: int|
                0 <= k < lits.len() && k != u ==> !vars.contains(var_of(#[trigger] lits[k]) as VariableId),
    decreases lits.len(),
{
    let pred = |l: i32| vars.contains(var_of(l) as VariableId);
    let s0 = lits.drop_last();
    let x = lits.last();
    if lits.len() == 0 {
        assert(lits.filter(pred).len() == 0);
    } else {
        assert(s0.push(x) =~= lits);
        s0.lemma_filter_push(x, pred);
        if pred(x) {
            assert(s0.filter(pred).len() == 0);
            assert forall|k: int| 0 <= k < lits.len() && k != lits.len() - 1 implies !vars.contains(
                var_of(#[trigger] lits[k]) as VariableId,
            ) by {
                assert(lits[k] == s0[k]);
                if pred(s0[k]) {
                    s0.lemma_filter_contains(pred, k);
                }
            }
            assert(vars.contains(var_of(lits[lits.len() - 1]) as VariableId));
        } else {
            assert(count_on(s0, vars) == 1);
            lemma_count_on_one(s0, vars);
            let u = choose|u: int|
                0 <= u < s0.len() && vars.contains(var_of(#[trigger] s0[u]) as VariableId) && forall|k: int|
                    0 <= k < s0.len() && k != u ==> !vars.contains(var_of(#[trigger] s0[k]) as VariableId);
            assert(lits[u] == s0[u]);
            assert forall|k: int| 0 <= k < lits.len() && k != u implies !vars.contains(
                var_of(#[trigger] lits[k]) as VariableId,
            ) by {
                if k < s0.len() {
                    assert(lits[k] == s0[k]);
                }
            }
        }
    }
}

/// A learned clause that is false, with exactly one literal of the current decision level,
/// after the jump back to level `b` (the trail cut where level `b + 1` starts): that literal,
/// at position `u`, is unassigned, every other literal stays false, and where `b` is the
/// second highest level of the clause, a literal of a highest level is the one at `u`.
pub proof fn lemma_asserting_after_jump(
    t: Seq<Assignment>,
    st: Seq<usize>,
    a0: Seq<Option<bool>>,
    a1: Seq<Option<bool>>,
    c: Seq<i32>,
    b: usize,
) -> (u: int)
    requires
        forall|i: int, j: int| 0 <= i < j < st.len() ==> st[i] < st[j],
        forall|i: int| 0 <= i < st.len() ==> st[i] < t.len(),
        b < st.len() <= usize::MAX,
        forall|i: int, j: int| 0 <= i < j < t.len() ==> t[i].variable_id != t[j].variable_id,
        forall|v: int|
            0 <= v < a0.len() && (#[trigger] a0[v]) is Some ==> exists|k: int|
                0 <= k < t.len() && t[k].variable_id == v + 1,
        a1.len() == a0.len(),
        forall|i: int|
            0 <= i < a0.len() ==> #[trigger] a1[i] == if vars_from(t, st[b as int] as int, i + 1) {
                None
            } else {
                a0[i]
            },
        lits_in_range(c, a0.len() as int),
        clause_falsified(a0, c),
        count_on(c, current_level_vars(t, st)) == 1,
        c.len() >= 2 ==> all_on_trail(t, c) && is_second_largest(clause_levels(t, st, c), b),
        c.len() < 2 ==> b == 0,
    ensures
        0 <= u < c.len(),
        lit_unassigned(a1, c[u]),
        forall|k: int| 0 <= k < c.len() && k != u ==> lit_false(a1, #[trigger] c[k]) && c[k] != c[u],
        c.len() >= 2 ==> forall|k: int|
            0 <= k < c.len() && k != u ==> #[trigger] clause_levels(t, st, c)[k] < clause_levels(t, st, c)[u],
{
    let cur = current_level_vars(t, st);
    let last = st[st.len() - 1] as int;
    lemma_count_on_one(c, cur);
    let u = choose|u: int|
        0 <= u < c.len() && cur.contains(var_of(#[trigger] c[u]) as VariableId) && forall|k: int|
            0 <= k < c.len() && k != u ==> !cur.contains(var_of(#[trigger] c[k]) as VariableId);
    assert(cur.contains(var_of(c[u]) as VariableId));
    let iu = choose|i: int| 0 <= i < cur.len() && cur[i] == var_of(c[u]) as VariableId;
    let m = last + iu;
    assert(t[m].variable_id == var_of(c[u])) by {
        assert(cur[iu] == t.subrange(last, t.len() as int)[iu].variable_id);
    }
    assert(st[b as int] <= last) by {
        if (b as int) < st.len() - 1 {
            assert(st[b as int] < st[st.len() - 1]);
        }
    }
    assert(lit_unassigned(a1, c[u])) by {
        assert(1 <= var_of(c[u]) <= a0.len());
        assert(vars_from(t, st[b as int] as int, var_of(c[u])));
    }
    lemma_level_at(st, m);
    assert forall|i: int| 0 <= i < st.len() implies st[i] <= m by {
        if i < st.len() - 1 {
            assert(st[i] < st[st.len() - 1]);
        }
    }
    assert(st.len() - 1 < level_at(st, m));
    reveal(clause_levels);
    let lv = clause_levels(t, st, c);
    assert(first_position(t, var_of(c[u])) == Some(m)) by {
        assert(t[m].variable_id == var_of(c[u]) && forall|k: int| 0 <= k < m ==> t[k].variable_id != var_of(c[u]));
        let i = choose|i: int|
            0 <= i < t.len() && t[i].variable_id == var_of(c[u]) && forall|k: int|
                0 <= k < i ==> t[k].variable_id != var_of(c[u]);
        if i != m {
            if i < m {
                assert(t[i].variable_id != t[m].variable_id);
            } else {
                assert(t[m].variable_id != t[i].variable_id);
            }
        }
    }
    assert(level_at(st, m) == st.len());
    assert(c.len() >= 2 ==> lv[u] == st.len());
    assert forall|k: int| 0 <= k < c.len() && k != u implies lit_false(a1, #[trigger] c[k]) && c[k] != c[u] by {
        let v = var_of(c[k]);
        assert(lit_false(a0, c[k]));
        assert(1 <= v <= a0.len());
        assert(a0[v - 1] is Some);
        let p = choose|p: int| 0 <= p < t.len() && t[p].variable_id == v - 1 + 1;
        assert(!cur.contains(v as VariableId));
        assert(p < last) by {
            if p >= last {
                assert(cur[p - last] == t.subrange(last, t.len() as int)[p - last].variable_id);
                assert(cur[p - last] == v as VariableId);
            }
        }
        assert(p < st[b as int]) by {
            if c.len() >= 2 {
                assert(first_position(t, v) == Some(p)) by {
                    assert(t[p].variable_id == v && forall|q: int| 0 <= q < p ==> t[q].variable_id != v);
                    let i = choose|i: int|
                        0 <= i < t.len() && t[i].variable_id == v && forall|q: int|
                            0 <= q < i ==> t[q].variable_id != v;
                    if i != p {
                        if i < p {
                            assert(t[i].variable_id != t[p].variable_id);
                        } else {
                            assert(t[p].variable_id != t[i].variable_id);
                        }
                    }
                }
                lemma_level_at(st, p);
                assert(level_at(st, p) <= st.len() - 1) by {
                    if level_at(st, p) > st.len() - 1 {
                        assert(st[st.len() - 1] <= p);
                    }
                }
                assert(lv[k] == level_at(st, p));
                let (i, j) = choose|i: int, j: int|
                    0 <= i < lv.len() && 0 <= j < lv.len() && i != j && lv[i] == b && lv[j] >= b && forall|q: int|
                        0 <= q < lv.len() && q != i && q != j ==> lv[q] <= b;
                assert(lv[k] <= b) by {
                    if i == u {
                        let pj = first_position(t, var_of(c[j]))->0;
                        assert(j != u);
                    }
                }
                assert(!(st[b as int] <= p));
                assert(lv[k] < lv[u]);
            } else {
                assert(c.len() == 1);
            }
        }
        assert(!vars_from(t, st[b as int] as int, v)) by {
            if vars_from(t, st[b as int] as int, v) {
                let q = choose|q: int| st[b as int] <= q < t.len() && t[q].variable_id == v;
                assert(t[p].variable_id != t[q].variable_id);
            }
        }
        assert(a1[v - 1] == a0[v - 1]);
    }
    u
}

/// `r` is the second largest element of `s`, counting repetitions: the one before the last in
/// ascending order.
pub open spec fn is_second_largest(s: Seq<usize>, r: usize) -> bool {
    exists|i: int, j: int|
        0 <= i < s.len() && 0 <= j < s.len() && i != j && s[i] == r && s[j] >= r && forall|k: int|
            0 <= k < s.len() && k != i && k != j ==> s[k] <= r
}

/// The decision levels of the variables of the literals, in order.
#[verifier::opaque]
pub open spec fn clause_levels(t: Seq<Assignment>, starts: Seq<usize>, lits: Seq<i32>) -> Seq<usize> {
    Seq::new(lits.len(), |j: int| level_at(starts, first_position(t, var_of(lits[j]))->0) as usize)
}

/// Every variable of the literals is on the trail.
pub open spec fn all_on_trail(t: Seq<Assignment>, lits: Seq<i32>) -> bool {
    forall|j: int| 0 <= j < lits.len() ==> first_position(t, var_of(#[trigger] lits[j])) is Some
}

/// The literals of a resolvent of two clauses over `1..=n` name variables in `1..=n`.
pub proof fn lemma_resolvent_in_range(a: Seq<i32>, b: Seq<i32>, p: VariableId, r: Seq<i32>, n: int)
    requires
        lits_in_range(a, n),
        lits_in_range(b, n),
        r.to_set() == a.filter(|l: i32| var_of(l) != p as int).to_set() + b.filter(
            |l: i32| var_of(l) != p as int,
        ).to_set(),
    ensures
        lits_in_range(r, n),
{
    assert forall|x: int| 0 <= x < r.len() implies crate::cnf::literals::lit_ok(#[trigger] r[x]) && 1
        <= var_of(r[x]) <= n by {
        let l = r[x];
        assert(r.to_set().contains(l));
        let fa = a.filter(|l: i32| var_of(l) != p as int);
        let fb = b.filter(|l: i32| var_of(l) != p as int);
        if fa.to_set().contains(l) {
            a.lemma_filter_contains_rev(|l: i32| var_of(l) != p as int, l);
            let w = choose|w: int| 0 <= w < a.len() && a[w] == l;
        } else {
            assert(fb.to_set().contains(l));
            b.lemma_filter_contains_rev(|l: i32| var_of(l) != p as int, l);
            let w = choose|w: int| 0 <= w < b.len() && b[w] == l;
        }
    }
}

/// An element that is at least all others but one largest element is the second largest.
pub proof fn lemma_second_largest(s: Seq<usize>, top: int, second: int)
    requires
        0 <= top < s.len(),
        0 <= second < s.len(),
        top != second,
        forall|k: int| 0 <= k < s.len() ==> s[k] <= s[top],
        forall|k: int| 0 <= k < s.len() && k != top ==> s[k] <= s[second],
    ensures
        is_second_largest(s, s[second]),
{
    assert(forall|k: int| 0 <= k < s.len() && k != second && k != top ==> s[k] <= s[second]);
}

/// The index of a largest element.
fn index_of_max(s: &Vec<usize>, skip: Option<usize>) -> (r: usize)
    requires
        s@.len() >= 2,
        skip matches Some(x) ==> x < s@.len(),
    ensures
        r < s@.len(),
        skip != Some(r),
        forall|k: int| 0 <= k < s@.len() && Some(k as usize) != skip ==> s@[k] <= s@[r as int],
{
    let n = s.len();
    let mut best: usize = if skip == Some(0usize) {
        1
    } else {
        0
    };
    let mut i: usize = 0;
    while i < n
        invariant
            n == s@.len(),
            n >= 2,
            i <= n,
            best < n,
            skip != Some(best),
            forall|k: int| 0 <= k < i && Some(k as usize) != skip ==> s@[k] <= s@[best as int],
        decreases n - i,
    {
        if Some(i) != skip && s[i] > s[best] {
            best = i;
        }
        i = i + 1;
    }
    best
}

/// The elements of `s` but those at positions `a` and `b`, in order.
pub open spec fn without_two(s: Seq<i32>, a: int, b: int) -> Seq<i32>
    decreases s.len(),
{
    if s.len() == 0 {
        s
    } else {
        let prev = without_two(s.drop_last(), a, b);
        if s.len() - 1 == a || s.len() - 1 == b {
            prev
        } else {
            prev.push(s.last())
        }
    }
}

/// Appending an element extends `without_two` unless the element sits at `a` or `b`.
proof fn lemma_remove_two_push(s: Seq<i32>, x: i32, a: int, b: int)
    ensures
        without_two(s.push(x), a, b) == if s.len() == a || s.len() == b {
            without_two(s, a, b)
        } else {
            without_two(s, a, b).push(x)
        },
{
    assert(s.push(x).drop_last() =~= s);
}

/// `without_two` drops exactly the two positions it names.
proof fn lemma_without_two_len(s: Seq<i32>, a: int, b: int, i: int)
    requires
        0 <= i <= s.len(),
        a != b,
    ensures
        without_two(s.take(i), a, b).len() == i - (if 0 <= a < i { 1int } else { 0int }) - (if 0 <= b < i {
            1int
        } else {
            0int
        }),
    decreases i,
{
    if i > 0 {
        lemma_without_two_len(s, a, b, i - 1);
        assert(s.take(i) =~= s.take(i - 1).push(s[i - 1]));
        lemma_remove_two_push(s.take(i - 1), s[i - 1], a, b);
    } else {
        assert(s.take(0) =~= Seq::<i32>::empty());
    }
}

/// `without_two` keeps every element but the two, counted with repetitions.
proof fn lemma_without_two_multiset(s: Seq<i32>, a: int, b: int, i: int)
    requires
        0 <= a < s.len(),
        0 <= b < s.len(),
        a != b,
        0 <= i <= s.len(),
    ensures
        ({
            let m = without_two(s.take(i), a, b).to_multiset();
            let m1 = if a < i {
                m.insert(s[a])
            } else {
                m
            };
            let m2 = if b < i {
                m1.insert(s[b])
            } else {
                m1
            };
            m2 == s.take(i).to_multiset()
        }),
    decreases i,
{
    broadcast use vstd::multiset::group_multiset_axioms;
    broadcast use vstd::seq_lib::group_to_multiset_ensures;

    if i == 0 {
        assert(s.take(0) =~= Seq::<i32>::empty());
        assert(without_two(s.take(0), a, b) =~= Seq::<i32>::empty());
    } else {
        lemma_without_two_multiset(s, a, b, i - 1);
        assert(s.take(i) =~= s.take(i - 1).push(s[i - 1]));
        lemma_remove_two_push(s.take(i - 1), s[i - 1], a, b);
        let w0 = without_two(s.take(i - 1), a, b);
        let m = w0.to_multiset();
        if i - 1 == a {
            assert(without_two(s.take(i), a, b) == w0);
        } else if i - 1 == b {
            assert(without_two(s.take(i), a, b) == w0);
        } else {
            assert(without_two(s.take(i), a, b) == w0.push(s[i - 1]));
        }
        let mi = without_two(s.take(i), a, b).to_multiset();
        let m1 = if a < i - 1 { m.insert(s[a]) } else { m };
        let m2 = if b < i - 1 { m1.insert(s[b]) } else { m1 };
        assert(m2 == s.take(i - 1).to_multiset());
        let n1 = if a < i { mi.insert(s[a]) } else { mi };
        let n2 = if b < i { n1.insert(s[b]) } else { n1 };
        assert(n2 =~= m2.insert(s[i - 1]));
    }
}

/// Moving one element to the front and another to the back keeps the multiset.
proof fn lemma_arrangement_multiset(s: Seq<i32>, top: int, second: int)
    requires
        0 <= top < s.len(),
        0 <= second < s.len(),
        top != second,
    ensures
        (seq![s[second]] + without_two(s, top, second) + seq![s[top]]).to_multiset() == s.to_multiset(),
{
    broadcast use vstd::multiset::group_multiset_axioms;
    broadcast use vstd::seq_lib::group_to_multiset_ensures;

    lemma_without_two_multiset(s, top, second, s.len() as int);
    assert(s.take(s.len() as int) =~= s);
    let w = without_two(s, top, second);
    vstd::seq_lib::lemma_multiset_commutative(seq![s[second]], w);
    vstd::seq_lib::lemma_multiset_commutative(seq![s[second]] + w, seq![s[top]]);
    assert(seq![s[second]].to_multiset() =~= vstd::multiset::Multiset::empty().insert(s[second]));
    assert(seq![s[top]].to_multiset() =~= vstd::multiset::Multiset::empty().insert(s[top]));
    assert((seq![s[second]] + w + seq![s[top]]).to_multiset() =~= w.to_multiset().insert(s[top]).insert(s[second]));
}

/// `r` holds the literal at `top`, of a highest level, last, and the literal at `second`, of a
/// highest level among the others, first.
pub open spec fn arranged_at(c: Seq<i32>, r: Seq<i32>, lv: Seq<usize>, top: int, second: int) -> bool {
    &&& 0 <= top < c.len()
    &&& 0 <= second < c.len()
    &&& top != second
    &&& r.len() == c.len()
    &&& r.last() == c[top]
    &&& r[0] == c[second]
    &&& forall|k: int| 0 <= k < c.len() ==> lv[k] <= lv[top]
    &&& forall|k: int| 0 <= k < c.len() && k != top ==> lv[k] <= lv[second]
}

/// Literals with the same multiset as literals over `1..=n` are over `1..=n` too.
pub proof fn lemma_in_range_permuted(a: Seq<i32>, b: Seq<i32>, n: int)
    requires
        lits_in_range(a, n),
        a.to_multiset() == b.to_multiset(),
    ensures
        lits_in_range(b, n),
{
    broadcast use vstd::seq_lib::group_to_multiset_ensures;

    assert forall|x: int| 0 <= x < b.len() implies crate::cnf::literals::lit_ok(#[trigger] b[x]) && 1
        <= var_of(b[x]) <= n by {
        assert(b.contains(b[x]));
        assert(b.to_multiset().count(b[x]) > 0);
        assert(a.contains(b[x]));
        let w = choose|w: int| 0 <= w < a.len() && a[w] == b[x];
    }
}

/// The literals with the one at `second` moved to the front and the one at `top` to the back.
fn arrange(clause: &Literals, top: usize, second: usize) -> (r: Literals)
    requires
        top < clause@.len(),
        second < clause@.len(),
        top != second,
    ensures
        r@ == seq![clause@[second as int]] + without_two(clause@, top as int, second as int) + seq![
            clause@[top as int],
        ],
        r@.to_multiset() == clause@.to_multiset(),
        r@.len() == clause@.len(),
        r@[0] == clause@[second as int],
        r@.last() == clause@[top as int],
{
        let n = clause.len();
        let mut v: Vec<i32> = Vec::new();
        v.push(clause.get(second));
        let mut rest: Vec<i32> = Vec::new();
        let mut i: usize = 0;
        while i < n
            invariant
                n == clause@.len(),
                i <= n,
                top < n,
                second < n,
                top != second,
                rest@ == without_two(clause@.take(i as int), top as int, second as int),
            decreases n - i,
        {
            let ghost r0 = rest@;
            if i != top && i != second {
                rest.push(clause.get(i));
            }
            proof {
                assert(clause@.take(i + 1) =~= clause@.take(i as int).push(clause@[i as int]));
                lemma_remove_two_push(clause@.take(i as int), clause@[i as int], top as int, second as int);
            }
            i = i + 1;
        }
        let mut j: usize = 0;
        while j < rest.len()
            invariant
                second < clause@.len(),
                v@ == seq![clause@[second as int]] + rest@.take(j as int),
                j <= rest@.len(),
            decreases rest@.len() - j,
        {
            v.push(rest[j]);
            assert(v@ =~= seq![clause@[second as int]] + rest@.take(j + 1));
            j = j + 1;
        }
        v.push(clause.get(top));
        let ghost full = without_two(clause@, top as int, second as int);
        proof {
            assert(clause@.take(n as int) =~= clause@);
            assert(rest@.take(rest@.len() as int) =~= rest@);
            assert(rest@ == full);
            lemma_arrangement_multiset(clause@, top as int, second as int);
        }
        assert(v@ =~= seq![clause@[second as int]] + full + seq![clause@[top as int]]);
        proof {
            lemma_without_two_len(clause@, top as int, second as int, clause@.len() as int);
            assert(clause@.take(clause@.len() as int) =~= clause@);
        }
        Literals::from_vec(v)
}

impl Cdcl {
    /// Resolves two clauses on a pivot variable: the sorted literals of both, without the
    /// pivot's literals and without repetitions.
    pub fn resolve(clause_a: &Literals, clause_b: &Literals, pivot: VariableId) -> (r: Literals)
        ensures
            sorted_lt(r@),
            r@.to_set() == clause_a@.filter(|l: i32| var_of(l) != pivot as int).to_set()
                + clause_b@.filter(|l: i32| var_of(l) != pivot as int).to_set(),
    {
        let mut literals_a = clause_a.clone();
        literals_a.remove(pivot);
        let mut literals_b = clause_b.clone();
        literals_b.remove(pivot);
        Literals::combine(&literals_a, &literals_b)
    }

    /// The level to jump back to after learning a clause: 0 for a clause of fewer than two
    /// literals, else the second highest decision level of its variables; `None` if a variable
    /// of the clause is not on the trail.
    pub fn get_backjump_level_for_learned_clause(&self, clause: &Literals) -> (r: Option<usize>)
        ensures
            clause@.len() < 2 ==> r == Some(0usize),
            clause@.len() >= 2 ==> match r {
                Some(b) => all_on_trail(self.implication_graph.trail(), clause@) && is_second_largest(
                    clause_levels(self.implication_graph.trail(), self.implication_graph.starts(), clause@),
                    b,
                ),
                None => !all_on_trail(self.implication_graph.trail(), clause@),
            },
    {
        if clause.len() < 2 {
            return Some(0);
        }
        let levels = match self.clause_level_list(clause) {
            Some(v) => v,
            None => {
                return None;
            },
        };
        let top = index_of_max(&levels, None);
        let second = index_of_max(&levels, Some(top));
        proof {
            let s = clause_levels(self.implication_graph.trail(), self.implication_graph.starts(), clause@);
            lemma_second_largest(levels@, top as int, second as int);
        }
        Some(levels[second])
    }

    /// The decision levels of the variables of a clause, in order; `None` if a variable of the
    /// clause is not on the trail.
    fn clause_level_list(&self, clause: &Literals) -> (r: Option<Vec<usize>>)
        ensures
            match r {
                Some(levels) => all_on_trail(self.implication_graph.trail(), clause@) && levels@.len()
                    == clause@.len() && levels@ == clause_levels(self.implication_graph.trail(), self.implication_graph.starts(), clause@),
                None => !all_on_trail(self.implication_graph.trail(), clause@),
            },
    {
        let lits = clause.iter();
        let mut levels: Vec<usize> = Vec::new();
        let mut i: usize = 0;
        while i < lits.len()
            invariant
                i <= lits@.len(),
                lits@.len() == clause@.len(),
                forall|k: int| 0 <= k < lits@.len() ==> (#[trigger] lits@[k]).0 as int == var_of(clause@[k]),
                levels@.len() == i,
                forall|j: int|
                    0 <= j < i ==> first_position(self.implication_graph.trail(), var_of(#[trigger] clause@[j]))
                        is Some,
                forall|j: int|
                    0 <= j < i ==> #[trigger] levels@[j] == clause_levels(
                        self.implication_graph.trail(),
                        self.implication_graph.starts(),
                        clause@,
                    )[j],
            decreases lits@.len() - i,
        {
            let v = lits[i].0;
            assert(v as int == var_of(clause@[i as int]));
            proof {
                reveal(clause_levels);
            }
            match self.implication_graph.get_decision_level(&v) {
                Some(level) => levels.push(level),
                None => {
                    assert(first_position(self.implication_graph.trail(), var_of(clause@[i as int])) is None);
                    return None;
                },
            }
            i = i + 1;
        }
        proof {
            assert(levels@ =~= clause_levels(
                self.implication_graph.trail(),
                self.implication_graph.starts(),
                clause@,
            )) by {
                reveal(clause_levels);
            }
        }
        Some(levels)
    }

    /// The literals of a learned clause arranged for watching: a literal of the second highest
    /// decision level first, a literal of the highest level last (a new clause watches its last
    /// literal and the first literal of another variable), the others in between in their
    /// order. Clauses of fewer than two literals, and clauses with a variable that is not on the
    /// trail, stay as they are.
    pub fn watch_order(&self, clause: &Literals) -> (r: Literals)
        ensures
            r@.to_multiset() == clause@.to_multiset(),
            r@.len() == clause@.len(),
            clause@.len() >= 2 && all_on_trail(self.implication_graph.trail(), clause@) ==> exists|
                top: int,
                second: int,
            |
                #[trigger] arranged_at(
                    clause@,
                    r@,
                    clause_levels(self.implication_graph.trail(), self.implication_graph.starts(), clause@),
                    top,
                    second,
                ),
    {
        if clause.len() < 2 {
            return clause.clone();
        }
        let levels = match self.clause_level_list(clause) {
            Some(v) => v,
            None => {
                return clause.clone();
            },
        };
        let top = index_of_max(&levels, None);
        let second = index_of_max(&levels, Some(top));
        let r = arrange(clause, top, second);
        proof {
            let lv = clause_levels(self.implication_graph.trail(), self.implication_graph.starts(), clause@);
            assert(arranged_at(clause@, r@, lv, top as int, second as int));
        }
        r
    }

    /// Counts the literals whose variable is one of `vars`.
    fn count_current(learned: &Literals, vars: &Vec<VariableId>) -> (r: usize)
        ensures
            r == count_on(learned@, vars@),
    {
        let n = learned.len();
        let mut count: usize = 0;
        let mut i: usize = 0;
        while i < n
            invariant
                n == learned@.len(),
                i <= n,
                count == count_on(learned@.subrange(0, i as int), vars@),
                count <= i,
            decreases n - i,
        {
            let lit = learned.get(i);
            let v = crate::cnf::literals::lit_var(lit);
            let mut found = false;
            let mut k: usize = 0;
            while k < vars.len()
                invariant
                    k <= vars@.len(),
                    found == exists|m: int| 0 <= m < k && vars@[m] == v,
                decreases vars@.len() - k,
            {
                if vars[k] == v {
                    found = true;
                }
                k = k + 1;
            }
            proof {
                let pre = learned@.subrange(0, i as int);
                assert(learned@.subrange(0, i + 1) =~= pre.push(lit));
                pre.lemma_filter_push(lit, |l: i32| vars@.contains(var_of(l) as VariableId));
                assert(found == vars@.contains(var_of(lit) as VariableId));
            }
            if found {
                count = count + 1;
            }
            i = i + 1;
        }
        assert(learned@.subrange(0, n as int) =~= learned@);
        count
    }

    /// Derives a clause to learn from a conflict clause by resolving it with the reasons of the
    /// latest assignments, until exactly one of its literals speaks of a variable of the current
    /// decision level.
    ///
    /// Returns `None` where the derivation cannot go on: no literal of the current decision level
    /// is left, a literal's variable has no reason (a decision), or more resolution steps would
    /// be needed than there are variables. In a consistent search none of these happens to a
    /// false conflict clause with some literal of the current decision level and no literal
    /// twice: the derivation then succeeds.
    #[verifier::spinoff_prover]
    pub fn generate_learned_clause(&self, conflict_clause: &Clause) -> (r: Option<Literals>)
        requires
            self.wf(),
            clause_wf(*conflict_clause, self.cnf_formula.variable_count as int),
            self.sound@ ==> self.watch_state_ok() && clause_falsified(
                self.cnf_formula.assignments@,
                conflict_clause.literals@,
            ) && implied(self.original@, conflict_clause.literals@, self.cnf_formula.variable_count as nat),
        ensures
            self.sound@ && conflict_clause.literals@.no_duplicates() && count_on(
                conflict_clause.literals@,
                current_level_vars(self.implication_graph.trail(), self.implication_graph.starts()),
            ) >= 1 ==> r is Some,
            conflict_clause.literals@.no_duplicates() ==> (r matches Some(l) ==> l@.no_duplicates()),
            self.sound@ ==> (r matches Some(l) ==> clause_falsified(self.cnf_formula.assignments@, l@)
                && implied(self.original@, l@, self.cnf_formula.variable_count as nat)),
            r matches Some(l) ==> count_on(
                l@,
                current_level_vars(self.implication_graph.trail(), self.implication_graph.starts()),
            ) == 1 && l@.len() > 0 && lits_in_range(l@, self.cnf_formula.variable_count as int),
    {
        let mut learned_clause_literals = conflict_clause.literals.clone();
        let current = self.implication_graph.get_assignments_of_current_decision_level();
        let mut variables_from_current_decision_level: Vec<VariableId> = Vec::new();
        let mut i: usize = 0;
        while i < current.len()
            invariant
                i <= current@.len(),
                variables_from_current_decision_level@ == current@.subrange(0, i as int).map_values(
                    |a: Assignment| a.variable_id,
                ),
            decreases current@.len() - i,
        {
            variables_from_current_decision_level.push(current[i].variable_id);
            assert(variables_from_current_decision_level@ =~= current@.subrange(0, i + 1).map_values(
                |a: Assignment| a.variable_id,
            ));
            i = i + 1;
        }
        assert(current@.subrange(0, current@.len() as int) =~= current@);
        assert(variables_from_current_decision_level@ =~= current_level_vars(
            self.implication_graph.trail(),
            self.implication_graph.starts(),
        ));
        let n = self.cnf_formula.variable_count;
        let mut fuel: usize = self.cnf_formula.variable_count;
        let ghost t = self.implication_graph.trail();
        let ghost st = self.implication_graph.starts();
        let ghost cur = current_level_vars(t, st);
        let ghost owed = self.sound@ && conflict_clause.literals@.no_duplicates() && count_on(
            conflict_clause.literals@,
            cur,
        ) >= 1;
        let ghost big: int = st.last() as int;
        let ghost mut bound: int = t.len() - 1;
        proof {
            if owed {
                assert(st.len() > 0) by {
                    if st.len() == 0 {
                        assert(cur =~= Seq::<VariableId>::empty());
                        lemma_count_witness(conflict_clause.literals@, cur);
                    }
                }
                reveal(trail_ok);
                lemma_cdcl_trail_len(t, n as int);
                let a = self.cnf_formula.assignments@;
                let lits = conflict_clause.literals@;
                lemma_false_distinct_vars(a, lits);
                assert forall|i: int| 0 <= i < lits.len() implies exists|k: int|
                    0 <= k <= bound && #[trigger] t[k].variable_id == var_of(#[trigger] lits[i]) by {
                    assert(lit_false(a, lits[i]));
                    assert(a[var_of(lits[i]) - 1] is Some);
                    let k = choose|k: int| 0 <= k < t.len() && t[k].variable_id == (var_of(lits[i]) - 1) + 1;
                }
                assert(big < t.len());
            }
        }
        loop
            invariant
                self.wf(),
                n == self.cnf_formula.variable_count,
                variables_from_current_decision_level@ == current_level_vars(
                    self.implication_graph.trail(),
                    self.implication_graph.starts(),
                ),
                lits_in_range(learned_clause_literals@, n as int),
                self.sound@ ==> self.watch_state_ok() && clause_falsified(
                    self.cnf_formula.assignments@,
                    learned_clause_literals@,
                ) && implied(self.original@, learned_clause_literals@, n as nat),
                t == self.implication_graph.trail(),
                st == self.implication_graph.starts(),
                cur == current_level_vars(t, st),
                big == st.last() as int,
                owed == (self.sound@ && conflict_clause.literals@.no_duplicates() && count_on(
                    conflict_clause.literals@,
                    cur,
                ) >= 1),
                owed ==> st.len() > 0 && big < t.len() && t.len() <= n,
                owed ==> distinct_vars(learned_clause_literals@),
                owed ==> count_on(learned_clause_literals@, cur) >= 1,
                owed ==> bound < t.len(),
                owed ==> on_trail_upto(t, learned_clause_literals@, bound),
                owed ==> fuel >= bound - big,
                conflict_clause.literals@.no_duplicates() ==> learned_clause_literals@.no_duplicates(),
            decreases fuel,
        {
            let count = Self::count_current(
                &learned_clause_literals,
                &variables_from_current_decision_level,
            );
            proof {
                assert(owed ==> count >= 1);
                if owed && count >= 2 {
                    assert(trail_distinct(t)) by {
                        reveal(trail_ok);
                    }
                    lemma_two_current(t, st, learned_clause_literals@, bound);
                }
            }
            if count == 1 {
                proof {
                    if learned_clause_literals@.len() == 0 {
                        assert(learned_clause_literals@.filter(
                            |l: i32| variables_from_current_decision_level@.contains(var_of(l) as VariableId),
                        ) =~= Seq::<i32>::empty());
                    }
                }
                return Some(learned_clause_literals);
            }
            if count == 0 || fuel == 0 {
                return None;
            }
            fuel = fuel - 1;
            let most_recent_assignment = match self.implication_graph.get_latest_assignment_for_given_literals(
                &learned_clause_literals,
            ) {
                Some(a) => *a,
                None => {
                    proof {
                        if owed {
                            let lits = learned_clause_literals@;
                            lemma_count_witness(lits, cur);
                            let i = choose|i: int| 0 <= i < lits.len() && cur.contains(var_of(#[trigger] lits[i]) as VariableId);
                            let k = choose|k: int| 0 <= k <= bound && #[trigger] t[k].variable_id == var_of(lits[i]);
                            assert(var_of(lits[i]) != t[k].variable_id);
                        }
                    }
                    return None;
                },
            };
            let ghost lits = learned_clause_literals@;
            let ghost kk = choose|k: int|
                0 <= k < t.len() && t[k] == most_recent_assignment && (exists|j: int|
                    0 <= j < lits.len() && var_of(lits[j]) == most_recent_assignment.variable_id) && forall|m: int, j: int|
                    k < m < t.len() && 0 <= j < lits.len() ==> var_of(lits[j]) != t[m].variable_id;
            let ghost mut i2: int = 0;
            proof {
                if owed {
                    assert(trail_distinct(t)) by {
                        reveal(trail_ok);
                    }
                    i2 = lemma_latest_current(t, st, lits, bound, kk);
                }
            }
            let antecedent_clause_id = match most_recent_assignment.reason {
                Some(c) => c,
                None => {
                    proof {
                        if owed {
                            assert(t[kk].reason is None);
                            assert(st.contains(kk as usize));
                            let w = choose|w: int| 0 <= w < st.len() && st[w] == kk as usize;
                            assert(st[w] as int == kk);
                            if w < st.len() - 1 {
                                assert(st[w] < st[st.len() - 1]);
                            }
                            assert(kk <= big);
                        }
                    }
                    return None;
                },
            };
            proof {
                let k = choose|k: int|
                    0 <= k < self.implication_graph.trail().len() && self.implication_graph.trail()[k]
                        == most_recent_assignment;
                crate::cdcl::cdcl::lemma_trail_entry(self.implication_graph.trail(), self.cnf_formula, k);
                assert(clause_wf(
                    self.cnf_formula.clauses@[antecedent_clause_id as int],
                    n as int,
                ));
            }
            let antecedent_clause = &self.cnf_formula.clauses[antecedent_clause_id];
            let resolution = Self::resolve(
                &learned_clause_literals,
                &antecedent_clause.literals,
                most_recent_assignment.variable_id,
            );
            proof {
                lemma_resolvent_in_range(
                    learned_clause_literals@,
                    antecedent_clause.literals@,
                    most_recent_assignment.variable_id,
                    resolution@,
                    n as int,
                );
                if self.sound@ {
                    let t = self.implication_graph.trail();
                    let a = self.cnf_formula.assignments@;
                    let k = choose|k: int| 0 <= k < t.len() && t[k] == most_recent_assignment;
                    assert(t[k].reason is Some);
                    let b = antecedent_clause.literals@;
                    assert(crate::cdcl::cdcl::reason_ok(t, a, b, k));
                    let p = most_recent_assignment.variable_id;
                    let fa = learned_clause_literals@.filter(|l: i32| var_of(l) != p as int);
                    let fb = b.filter(|l: i32| var_of(l) != p as int);
                    assert forall|x: int| 0 <= x < resolution@.len() implies lit_false(a, #[trigger] resolution@[x]) by {
                        let l = resolution@[x];
                        assert(resolution@.to_set().contains(l));
                        if fa.to_set().contains(l) {
                            learned_clause_literals@.lemma_filter_contains_rev(|l: i32| var_of(l) != p as int, l);
                            let w = choose|w: int| 0 <= w < learned_clause_literals@.len() && learned_clause_literals@[w] == l;
                        } else {
                            assert(fb.to_set().contains(l));
                            b.lemma_filter_contains_rev(|l: i32| var_of(l) != p as int, l);
                            let w = choose|w: int| 0 <= w < b.len() && b[w] == l;
                            assert(fb.contains(l));
                            let w2 = choose|w2: int| 0 <= w2 < fb.len() && fb[w2] == l;
                            b.lemma_filter_pred(|l: i32| var_of(l) != p as int, w2);
                        }
                    }
                    reveal(trail_ok);
                    assert(a[p - 1] == Some(t[k].value));
                    assert forall|i: int| 0 <= i < learned_clause_literals@.len() && var_of(
                        #[trigger] learned_clause_literals@[i],
                    ) == p implies (learned_clause_literals@[i] > 0) != t[k].value by {
                        assert(lit_false(a, learned_clause_literals@[i]));
                    }
                    assert forall|i: int| 0 <= i < b.len() && var_of(#[trigger] b[i]) == p implies (b[i] > 0)
                        == t[k].value by {
                        assert(crate::cdcl::cdcl::reason_lit_ok(t, a, b[i], k));
                    }
                    assert(implied(self.original@, b, n as nat));
                    lemma_resolvent_implied(
                        self.original@,
                        n as nat,
                        learned_clause_literals@,
                        b,
                        p,
                        t[k].value,
                        resolution@,
                    );
                }
            }
            proof {
                if owed {
                    assert(self.watch_state_ok());
                    lemma_step_kept(
                        t,
                        self.cnf_formula.assignments@,
                        cur,
                        lits,
                        antecedent_clause.literals@,
                        resolution@,
                        bound,
                        kk,
                        i2,
                    );
                }
                bound = kk - 1;
            }
            proof {
                assert forall|i: int, j: int| 0 <= i < resolution@.len() && 0 <= j < resolution@.len() && i != j implies resolution@[i]
                    != resolution@[j] by {
                    if i < j {
                        assert(resolution@[i] < resolution@[j]);
                    } else {
                        assert(resolution@[j] < resolution@[i]);
                    }
                }
            }
            learned_clause_literals = resolution;
        }
    }
}

} // verus!
