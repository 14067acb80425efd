use crate::cdcl::cdcl::{holds, is_model, satisfied_by};
use crate::cnf::literals::{clause_falsified, lit_false, lits_in_range, var_of};
use crate::dpll::assignment::Assignment;
use crate::dpll::assignment_stack::unassigned_by;
use vstd::prelude::*;

verus! {

/// The trail entry holds under the total assignment `m`.
pub open spec fn agrees(m: Seq<bool>, e: Assignment) -> bool {
    m[e.variable_id - 1] == e.value
}

/// `m` agrees with every decision at a trail position up to `k`: with the assignments at the
/// recorded starts of decision levels.
pub open spec fn agrees_with_decisions(m: Seq<bool>, t: Seq<Assignment>, st: Seq<i32>, k: int) -> bool {
    forall|i: int| 0 <= i < st.len() && 0 <= #[trigger] st[i] <= k ==> agrees(m, t[st[i] as int])
}

/// Each assignment on the trail holds in every model of the clauses that agrees with the
/// decisions at or before it.
#[verifier::opaque]
pub open spec fn decisions_imply(t: Seq<Assignment>, st: Seq<i32>, cs: Seq<Seq<i32>>, n: nat) -> bool {
    forall|m: Seq<bool>, k: int|
        #![trigger is_model(m, cs, n), t[k]]
        is_model(m, cs, n) && 0 <= k < t.len() && agrees_with_decisions(m, t, st, k) ==> agrees(m, t[k])
}

/// The assignment `a` holds the values of the trail, and each variable it assigns is on the
/// trail.
pub open spec fn trail_matches(t: Seq<Assignment>, a: Seq<Option<bool>>) -> bool {
    &&& forall|k: int|
        0 <= k < t.len() ==> 1 <= (#[trigger] t[k]).variable_id <= a.len() && a[t[k].variable_id - 1] == Some(
            t[k].value,
        )
    &&& forall|v: int|
        0 <= v < a.len() && (#[trigger] a[v]) is Some ==> exists|k: int| 0 <= k < t.len() && t[k].variable_id == v + 1
}

/// Unassigning the variables of the trail from position `keep` on leaves the trail up to
/// there matching.
pub proof fn lemma_undo_matches(t: Seq<Assignment>, a0: Seq<Option<bool>>, keep: int)
    requires
        trail_matches(t, a0),
        forall|i: int, j: int| 0 <= i < j < t.len() ==> (#[trigger] t[i]).variable_id != (#[trigger] t[j]).variable_id,
        0 <= keep <= t.len(),
    ensures
        trail_matches(t.take(keep), unassigned_by(a0, t.skip(keep))),
{
    let a1 = unassigned_by(a0, t.skip(keep));
    let t1 = t.take(keep);
    let sk = t.skip(keep);
    assert forall|k: int| 0 <= k < t1.len() implies 1 <= (#[trigger] t1[k]).variable_id <= a1.len()
        && a1[t1[k].variable_id - 1] == Some(t1[k].value) by {
        assert(t1[k] == t[k]);
        if exists|j: int| 0 <= j < sk.len() && sk[j].variable_id == t[k].variable_id - 1 + 1 {
            let j = choose|j: int| 0 <= j < sk.len() && sk[j].variable_id == t[k].variable_id - 1 + 1;
            assert(sk[j] == t[keep + j]);
        }
    }
    assert forall|v: int| 0 <= v < a1.len() && (#[trigger] a1[v]) is Some implies exists|k: int|
        0 <= k < t1.len() && t1[k].variable_id == v + 1 by {
        assert(a0[v] is Some);
        let k = choose|k: int| 0 <= k < t.len() && t[k].variable_id == v + 1;
        if k >= keep {
            assert(sk[k - keep] == t[k]);
        }
        assert(t1[k] == t[k]);
    }
}

/// Unassigning the variable of the last trail entry leaves the rest of the trail matching.
pub proof fn lemma_drop_last_matches(t: Seq<Assignment>, a0: Seq<Option<bool>>)
    requires
        trail_matches(t, a0),
        forall|i: int, j: int| 0 <= i < j < t.len() ==> (#[trigger] t[i]).variable_id != (#[trigger] t[j]).variable_id,
        t.len() > 0,
    ensures
        trail_matches(t.drop_last(), a0.update(t.last().variable_id - 1, None)),
{
    let a1 = a0.update(t.last().variable_id - 1, None);
    let t1 = t.drop_last();
    assert forall|k: int| 0 <= k < t1.len() implies 1 <= (#[trigger] t1[k]).variable_id <= a1.len()
        && a1[t1[k].variable_id - 1] == Some(t1[k].value) by {
        assert(t1[k] == t[k]);
        assert(t[k].variable_id != t[t.len() - 1].variable_id);
    }
    assert forall|v: int| 0 <= v < a1.len() && (#[trigger] a1[v]) is Some implies exists|k: int|
        0 <= k < t1.len() && t1[k].variable_id == v + 1 by {
        assert(a0[v] is Some);
        let k = choose|k: int| 0 <= k < t.len() && t[k].variable_id == v + 1;
        assert(k != t.len() - 1);
        assert(t1[k] == t[k]);
    }
}

/// An empty trail implies nothing.
pub proof fn lemma_empty_trail_implies(st: Seq<i32>, cs: Seq<Seq<i32>>, n: nat)
    ensures
        decisions_imply(Seq::empty(), st, cs, n),
{
    reveal(decisions_imply);
}

/// A model that agrees with the decisions up to `p` agrees with every trail entry up to `p`.
pub proof fn lemma_agrees_prefix(t: Seq<Assignment>, st: Seq<i32>, cs: Seq<Seq<i32>>, n: nat, m: Seq<bool>, p: int)
    requires
        decisions_imply(t, st, cs, n),
        is_model(m, cs, n),
        agrees_with_decisions(m, t, st, p),
    ensures
        forall|k: int| 0 <= k < t.len() && k <= p ==> agrees(m, #[trigger] t[k]),
{
    reveal(decisions_imply);
    assert forall|k: int| 0 <= k < t.len() && k <= p implies agrees(m, #[trigger] t[k]) by {
        assert(agrees_with_decisions(m, t, st, k));
        assert(is_model(m, cs, n));
    }
}

/// A model that agrees with the whole trail falsifies a clause that the trail makes false.
pub proof fn lemma_false_clause_refutes(
    t: Seq<Assignment>,
    a: Seq<Option<bool>>,
    m: Seq<bool>,
    lits: Seq<i32>,
)
    requires
        trail_matches(t, a),
        lits_in_range(lits, a.len() as int),
        clause_falsified(a, lits),
        forall|k: int| 0 <= k < t.len() ==> agrees(m, #[trigger] t[k]),
    ensures
        !satisfied_by(m, lits),
{
    if satisfied_by(m, lits) {
        let i = choose|i: int| 0 <= i < lits.len() && holds(m, #[trigger] lits[i]);
        assert(lit_false(a, lits[i]));
        let v = var_of(lits[i]) - 1;
        assert(a[v] is Some);
        let k = choose|k: int| 0 <= k < t.len() && t[k].variable_id == v + 1;
        assert(agrees(m, t[k]));
    }
}

/// An assignment pushed onto the trail that holds in every model agreeing with the decisions
/// keeps each entry implied by the decisions before it.
pub proof fn lemma_push_implied(t: Seq<Assignment>, st: Seq<i32>, cs: Seq<Seq<i32>>, n: nat, e: Assignment)
    requires
        decisions_imply(t, st, cs, n),
        forall|m: Seq<bool>|
            #[trigger] is_model(m, cs, n) && agrees_with_decisions(m, t.push(e), st, t.len() as int) ==> agrees(m, e),
    ensures
        decisions_imply(t.push(e), st, cs, n),
{
    reveal(decisions_imply);
    let t1 = t.push(e);
    assert forall|m: Seq<bool>, k: int|
        #![trigger is_model(m, cs, n), t1[k]]
        is_model(m, cs, n) && 0 <= k < t1.len() && agrees_with_decisions(m, t1, st, k) implies agrees(m, t1[k]) by {
        if k < t.len() {
            assert forall|i: int| 0 <= i < st.len() && 0 <= #[trigger] st[i] <= k implies agrees(m, t[st[i] as int]) by {
                assert(t1[st[i] as int] == t[st[i] as int]);
            }
            assert(agrees_with_decisions(m, t, st, k));
            assert(t1[k] == t[k]);
        } else {
            assert(t1[k] == e);
        }
    }
}

/// A new decision level that starts past the end of the trail changes nothing that is
/// implied, and the decision made there holds wherever the decisions do.
pub proof fn lemma_decision_implied(t: Seq<Assignment>, st: Seq<i32>, cs: Seq<Seq<i32>>, n: nat, e: Assignment)
    requires
        decisions_imply(t, st, cs, n),
        t.len() < i32::MAX,
    ensures
        decisions_imply(t.push(e), st.push(t.len() as i32), cs, n),
{
    reveal(decisions_imply);
    let st1 = st.push(t.len() as i32);
    let t1 = t.push(e);
    assert forall|m: Seq<bool>, k: int|
        #![trigger is_model(m, cs, n), t1[k]]
        is_model(m, cs, n) && 0 <= k < t1.len() && agrees_with_decisions(m, t1, st1, k) implies agrees(m, t1[k]) by {
        if k < t.len() {
            assert forall|i: int| 0 <= i < st.len() && 0 <= #[trigger] st[i] <= k implies agrees(m, t[st[i] as int]) by {
                assert(st1[i] == st[i]);
                assert(t1[st[i] as int] == t[st[i] as int]);
            }
            assert(agrees_with_decisions(m, t, st, k));
            assert(t1[k] == t[k]);
        } else {
            assert(st1[st.len() as int] == t.len());
        }
    }
}

/// Where every literal of a clause but `w` is false, the assignment making `w` true holds in
/// every model that agrees with the decisions.
pub proof fn lemma_unit_implied(
    t: Seq<Assignment>,
    st: Seq<i32>,
    cs: Seq<Seq<i32>>,
    n: nat,
    a: Seq<Option<bool>>,
    lits: Seq<i32>,
    w: i32,
    e: Assignment,
)
    requires
        decisions_imply(t, st, cs, n),
        trail_matches(t, a),
        cs.contains(lits),
        lits_in_range(lits, a.len() as int),
        forall|i: int| 0 <= i < lits.len() && lits[i] != w ==> lit_false(a, #[trigger] lits[i]),
        e.variable_id == var_of(w),
        e.value == (w > 0),
    ensures
        forall|m: Seq<bool>|
            #[trigger] is_model(m, cs, n) && agrees_with_decisions(m, t.push(e), st, t.len() as int) ==> agrees(m, e),
{
    assert forall|m: Seq<bool>|
        #[trigger] is_model(m, cs, n) && agrees_with_decisions(m, t.push(e), st, t.len() as int) implies agrees(m, e) by {
        let t1 = t.push(e);
        assert forall|i: int| 0 <= i < st.len() && 0 <= #[trigger] st[i] <= t.len() - 1 implies agrees(m, t[st[i] as int]) by {
            assert(t1[st[i] as int] == t[st[i] as int]);
        }
        lemma_agrees_prefix(t, st, cs, n, m, t.len() - 1);
        let c = choose|c: int| 0 <= c < cs.len() && cs[c] == lits;
        assert(satisfied_by(m, cs[c]));
        let i = choose|i: int| 0 <= i < lits.len() && holds(m, #[trigger] lits[i]);
        if lits[i] != w {
            assert(lit_false(a, lits[i]));
            let v = var_of(lits[i]) - 1;
            assert(a[v] is Some);
            let k = choose|k: int| 0 <= k < t.len() && t[k].variable_id == v + 1;
            assert(agrees(m, t[k]));
        }
    }
}

/// After a conflict, a model that agrees with the decisions below the last decision level
/// disagrees with that level's decision: agreeing with it, it would agree with the whole
/// trail, which makes a clause false.
proof fn lemma_flip_entry(
    t: Seq<Assignment>,
    st: Seq<i32>,
    cs: Seq<Seq<i32>>,
    n: nat,
    a: Seq<Option<bool>>,
    lits: Seq<i32>,
    e: Assignment,
    m: Seq<bool>,
)
    requires
        decisions_imply(t, st, cs, n),
        trail_matches(t, a),
        cs.contains(lits),
        lits_in_range(lits, a.len() as int),
        clause_falsified(a, lits),
        st.len() > 0,
        0 <= st.last() < t.len(),
        forall|i: int| 0 <= i < st.len() ==> #[trigger] st[i] <= st.last(),
        e.variable_id == t[st.last() as int].variable_id,
        e.value == !t[st.last() as int].value,
        is_model(m, cs, n),
        agrees_with_decisions(m, t.take(st.last() as int).push(e), st.drop_last(), st.last() as int),
    ensures
        agrees(m, e),
{
    let s = st.last() as int;
    let t1 = t.take(s).push(e);
    let st1 = st.drop_last();
    if !agrees(m, e) {
        assert forall|i: int| 0 <= i < st.len() && 0 <= #[trigger] st[i] <= t.len() - 1 implies agrees(
            m,
            t[st[i] as int],
        ) by {
            if st[i] < s {
                assert(i < st.len() - 1);
                assert(st1[i] == st[i]);
                assert(t1[st[i] as int] == t[st[i] as int]);
            }
        }
        lemma_agrees_prefix(t, st, cs, n, m, t.len() - 1);
        lemma_false_clause_refutes(t, a, m, lits);
        let c = choose|c: int| 0 <= c < cs.len() && cs[c] == lits;
        assert(satisfied_by(m, cs[c]));
    }
}

/// After a conflict, undoing the last decision level and putting the opposite of its
/// decision in its place keeps each entry implied by the decisions before it.
pub proof fn lemma_flip_implied(
    t: Seq<Assignment>,
    st: Seq<i32>,
    cs: Seq<Seq<i32>>,
    n: nat,
    a: Seq<Option<bool>>,
    lits: Seq<i32>,
    e: Assignment,
)
    requires
        decisions_imply(t, st, cs, n),
        trail_matches(t, a),
        cs.contains(lits),
        lits_in_range(lits, a.len() as int),
        clause_falsified(a, lits),
        st.len() > 0,
        0 <= st.last() < t.len(),
        forall|i: int| 0 <= i < st.len() ==> #[trigger] st[i] <= st.last(),
        e.variable_id == t[st.last() as int].variable_id,
        e.value == !t[st.last() as int].value,
    ensures
        decisions_imply(t.take(st.last() as int).push(e), st.drop_last(), cs, n),
{
    let s = st.last() as int;
    let t1 = t.take(s).push(e);
    let st1 = st.drop_last();
    assert forall|m: Seq<bool>, k: int|
        #![trigger is_model(m, cs, n), t1[k]]
        is_model(m, cs, n) && 0 <= k < t1.len() && agrees_with_decisions(m, t1, st1, k) implies agrees(m, t1[k]) by {
        if k < s {
            assert forall|i: int| 0 <= i < st.len() && 0 <= #[trigger] st[i] <= k implies agrees(m, t[st[i] as int]) by {
                assert(i < st.len() - 1);
                assert(st1[i] == st[i]);
                assert(t1[st[i] as int] == t[st[i] as int]);
            }
            reveal(decisions_imply);
            assert(agrees_with_decisions(m, t, st, k));
            assert(t1[k] == t[k]);
        } else {
            assert(t1[k] == e);
            lemma_flip_entry(t, st, cs, n, a, lits, e, m);
        }
    }
    reveal(decisions_imply);
}

/// A conflict with no decision on the trail leaves the clauses without a model.
pub proof fn lemma_conflict_without_decisions(
    t: Seq<Assignment>,
    st: Seq<i32>,
    cs: Seq<Seq<i32>>,
    n: nat,
    a: Seq<Option<bool>>,
    lits: Seq<i32>,
)
    requires
        decisions_imply(t, st, cs, n),
        trail_matches(t, a),
        cs.contains(lits),
        lits_in_range(lits, a.len() as int),
        clause_falsified(a, lits),
        forall|i: int| 0 <= i < st.len() ==> #[trigger] st[i] < 0,
    ensures
        forall|m: Seq<bool>| !is_model(m, cs, n),
{
    assert forall|m: Seq<bool>| !is_model(m, cs, n) by {
        if is_model(m, cs, n) {
            lemma_agrees_prefix(t, st, cs, n, m, t.len() - 1);
            lemma_false_clause_refutes(t, a, m, lits);
            let c = choose|c: int| 0 <= c < cs.len() && cs[c] == lits;
            assert(satisfied_by(m, cs[c]));
        }
    }
}

/// A conflict where every model makes the first trail entry hold and no decision stands later
/// leaves the clauses without a model.
pub proof fn lemma_conflict_with_forced_first(
    t: Seq<Assignment>,
    st: Seq<i32>,
    cs: Seq<Seq<i32>>,
    n: nat,
    a: Seq<Option<bool>>,
    lits: Seq<i32>,
)
    requires
        decisions_imply(t, st, cs, n),
        trail_matches(t, a),
        cs.contains(lits),
        lits_in_range(lits, a.len() as int),
        clause_falsified(a, lits),
        forall|i: int| 0 <= i < st.len() ==> #[trigger] st[i] <= 0,
        t.len() > 0 ==> forall|m: Seq<bool>| is_model(m, cs, n) ==> agrees(m, t[0]),
    ensures
        forall|m: Seq<bool>| !is_model(m, cs, n),
{
    assert forall|m: Seq<bool>| !is_model(m, cs, n) by {
        if is_model(m, cs, n) {
            assert(agrees_with_decisions(m, t, st, t.len() - 1)) by {
                assert forall|i: int| 0 <= i < st.len() && 0 <= #[trigger] st[i] <= t.len() - 1 implies agrees(
                    m,
                    t[st[i] as int],
                ) by {
                    assert(st[i] == 0);
                }
            }
            lemma_agrees_prefix(t, st, cs, n, m, t.len() - 1);
            lemma_false_clause_refutes(t, a, m, lits);
            let c = choose|c: int| 0 <= c < cs.len() && cs[c] == lits;
            assert(satisfied_by(m, cs[c]));
        }
    }
}

} // verus!
