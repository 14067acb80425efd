use crate::cnf::literals::var_of;
use crate::preprocess::cnf::clause::{signature, Clause, ClauseID};
use crate::cnf::cnf_formula::CnfFormula;
use crate::preprocess::cnf::cnf::{copy_ids, fx_get, fx_get_mut, fx_keys, lit_in, lits_in, occ_in, CNF};
use std::collections::BTreeMap;
use crate::preprocess::cnf::lit::Lit;
use crate::preprocess::cnf::misc::{distinct, lemma_distinct};
use crate::preprocess::cnf::var::VarId;
use vstd::prelude::*;

verus! {

/// Some literal of the first clause, of another variable than `v`, occurs negated in the
/// second clause: their resolvent on `v` would be a tautology.
pub open spec fn pre_resolvent_tautology_spec(c1: Clause, c2: Clause, v: VarId) -> bool {
    exists|j: int|
        0 <= j < c1.lits@.len() && var_of((#[trigger] c1.lits@[j]).0) != v as int && c2.lits@.contains(
            Lit((-c1.lits@[j].0) as i32),
        )
}

/// The pairs of a positive occurrence `p` with the negative occurrences whose resolvent with
/// `p` is no tautology, in the order of `neg`.
pub open spec fn resolvent_row(clauses: Map<ClauseID, Clause>, p: ClauseID, neg: Seq<ClauseID>, v: VarId) -> Seq<
    (ClauseID, ClauseID),
>
    decreases neg.len(),
{
    if neg.len() == 0 {
        Seq::empty()
    } else {
        let r = resolvent_row(clauses, p, neg.drop_last(), v);
        if !pre_resolvent_tautology_spec(clauses[p], clauses[neg.last()], v) {
            r.push((p, neg.last()))
        } else {
            r
        }
    }
}

/// The pairs of positive and negative occurrences whose resolvent is no tautology, row by row.
pub open spec fn resolvent_pairs(
    clauses: Map<ClauseID, Clause>,
    pos: Seq<ClauseID>,
    neg: Seq<ClauseID>,
    v: VarId,
) -> Seq<(ClauseID, ClauseID)>
    decreases pos.len(),
{
    if pos.len() == 0 {
        Seq::empty()
    } else {
        resolvent_pairs(clauses, pos.drop_last(), neg, v) + resolvent_row(clauses, pos.last(), neg, v)
    }
}

/// The literals of the resolvent on `v`: those of both clauses without repetitions, without the
/// literals of `v`.
pub open spec fn resolvent_lits(c1: Clause, c2: Clause, v: VarId) -> Seq<Lit> {
    distinct(c1.lits@ + c2.lits@).filter(|l: Lit| var_of(l.0) != v as int)
}

/// The resolvents NiVER would add for the variable `v`.
pub open spec fn niver_resolvents(c: CNF, v: VarId) -> Seq<(ClauseID, ClauseID)> {
    resolvent_pairs(c.clauses@, c.vars@[v].pos_occ@, c.vars@[v].neg_occ@, v)
}

/// The clauses NiVER would take out for the variable `v`: its occurrences, each once.
pub open spec fn niver_deleted(c: CNF, v: VarId) -> Seq<ClauseID> {
    distinct(c.vars@[v].pos_occ@ + c.vars@[v].neg_occ@)
}

/// NiVER eliminates `v` when it occurs somewhere and there are no more resolvents than clauses
/// to take out.
pub open spec fn niver_applies(c: CNF, v: VarId) -> bool {
    niver_deleted(c, v).len() > 0 && niver_resolvents(c, v).len() <= niver_deleted(c, v).len()
}

/// A row pairs `p` with occurrences from `neg`.
proof fn lemma_row_from(clauses: Map<ClauseID, Clause>, p: ClauseID, neg: Seq<ClauseID>, v: VarId)
    ensures
        forall|q: int|
            0 <= q < resolvent_row(clauses, p, neg, v).len() ==> (#[trigger] resolvent_row(clauses, p, neg, v)[q]).0
                == p && neg.contains(resolvent_row(clauses, p, neg, v)[q].1),
    decreases neg.len(),
{
    if neg.len() > 0 {
        let t = neg.drop_last();
        lemma_row_from(clauses, p, t, v);
        let r0 = resolvent_row(clauses, p, t, v);
        let r = resolvent_row(clauses, p, neg, v);
        assert forall|q: int| 0 <= q < r.len() implies (#[trigger] r[q]).0 == p && neg.contains(r[q].1) by {
            if q < r0.len() {
                assert(r[q] == r0[q]);
                let w = choose|w: int| 0 <= w < t.len() && t[w] == r0[q].1;
                assert(neg[w] == t[w]);
            } else {
                assert(neg[neg.len() - 1] == neg.last());
            }
        }
    }
}

/// The pairs are of positive and negative occurrences.
proof fn lemma_pairs_from(clauses: Map<ClauseID, Clause>, pos: Seq<ClauseID>, neg: Seq<ClauseID>, v: VarId)
    ensures
        forall|q: int|
            0 <= q < resolvent_pairs(clauses, pos, neg, v).len() ==> pos.contains(
                (#[trigger] resolvent_pairs(clauses, pos, neg, v)[q]).0,
            ) && neg.contains(resolvent_pairs(clauses, pos, neg, v)[q].1),
    decreases pos.len(),
{
    if pos.len() > 0 {
        let t = pos.drop_last();
        lemma_pairs_from(clauses, t, neg, v);
        lemma_row_from(clauses, pos.last(), neg, v);
        let a = resolvent_pairs(clauses, t, neg, v);
        let b = resolvent_row(clauses, pos.last(), neg, v);
        let r = resolvent_pairs(clauses, pos, neg, v);
        assert forall|q: int| 0 <= q < r.len() implies pos.contains((#[trigger] r[q]).0) && neg.contains(r[q].1) by {
            if q < a.len() {
                assert(r[q] == a[q]);
                let w = choose|w: int| 0 <= w < t.len() && t[w] == a[q].0;
                assert(pos[w] == t[w]);
            } else {
                assert(r[q] == b[q - a.len()]);
                assert(pos[pos.len() - 1] == pos.last());
            }
        }
    }
}

/// A row holds the pair of `p` with every occurrence of `neg` whose resolvent with `p` is no
/// tautology.
proof fn lemma_row_complete(clauses: Map<ClauseID, Clause>, p: ClauseID, neg: Seq<ClauseID>, v: VarId, n: ClauseID)
    requires
        neg.contains(n),
        !pre_resolvent_tautology_spec(clauses[p], clauses[n], v),
    ensures
        resolvent_row(clauses, p, neg, v).contains((p, n)),
    decreases neg.len(),
{
    let t = neg.drop_last();
    let r = resolvent_row(clauses, p, neg, v);
    if neg.last() == n {
        assert(r[r.len() - 1] == (p, n));
    } else {
        let w = choose|w: int| 0 <= w < neg.len() && neg[w] == n;
        assert(w != neg.len() - 1);
        assert(t[w] == n);
        lemma_row_complete(clauses, p, t, v, n);
        let r0 = resolvent_row(clauses, p, t, v);
        let k = choose|k: int| 0 <= k < r0.len() && r0[k] == (p, n);
        assert(r[k] == r0[k]);
    }
}

/// The pairs hold every positive and negative occurrence whose resolvent is no tautology.
proof fn lemma_pairs_complete(
    clauses: Map<ClauseID, Clause>,
    pos: Seq<ClauseID>,
    neg: Seq<ClauseID>,
    v: VarId,
    p: ClauseID,
    n: ClauseID,
)
    requires
        pos.contains(p),
        neg.contains(n),
        !pre_resolvent_tautology_spec(clauses[p], clauses[n], v),
    ensures
        resolvent_pairs(clauses, pos, neg, v).contains((p, n)),
    decreases pos.len(),
{
    let t = pos.drop_last();
    let a = resolvent_pairs(clauses, t, neg, v);
    let r = resolvent_pairs(clauses, pos, neg, v);
    if pos.last() == p {
        lemma_row_complete(clauses, p, neg, v, n);
        let b = resolvent_row(clauses, p, neg, v);
        let k = choose|k: int| 0 <= k < b.len() && b[k] == (p, n);
        assert(r[a.len() + k] == b[k]);
    } else {
        let w = choose|w: int| 0 <= w < pos.len() && pos[w] == p;
        assert(w != pos.len() - 1);
        assert(t[w] == p);
        lemma_pairs_complete(clauses, t, neg, v, p, n);
        let k = choose|k: int| 0 <= k < a.len() && a[k] == (p, n);
        assert(r[k] == a[k]);
    }
}

/// Some literal of the clause is true under the assignment.
pub open spec fn clause_true(c: Clause, a: Map<VarId, bool>) -> bool {
    exists|j: int| 0 <= j < c.lits@.len() && lit_true_in(#[trigger] c.lits@[j], a)
}

/// NiVER loses no model: where an assignment makes every resolvent that NiVER would add for
/// `v` true, one of the two values of `v` makes every clause it would take out true, given
/// that the occurrences of `v` are listed where it occurs with that sign.
pub proof fn law_niver_extends(c: CNF, v: VarId, a: Map<VarId, bool>)
    requires
        c.wf(),
        c.vars@.contains_key(v),
        1 <= v < i32::MAX,
        forall|q: int|
            0 <= q < c.vars@[v].pos_occ@.len() ==> c.clauses@[(#[trigger] c.vars@[v].pos_occ@[q])].lits@.contains(
                Lit(v as i32),
            ),
        forall|q: int|
            0 <= q < c.vars@[v].neg_occ@.len() ==> c.clauses@[(#[trigger] c.vars@[v].neg_occ@[q])].lits@.contains(
                Lit((-(v as int)) as i32),
            ),
        forall|t: int|
            0 <= t < niver_resolvents(c, v).len() ==> exists|j: int|
                0 <= j < resolvent_lits(
                    c.clauses@[(#[trigger] niver_resolvents(c, v)[t]).0],
                    c.clauses@[niver_resolvents(c, v)[t].1],
                    v,
                ).len() && lit_true_in(
                    resolvent_lits(c.clauses@[niver_resolvents(c, v)[t].0], c.clauses@[niver_resolvents(c, v)[t].1], v)[j],
                    a,
                ),
    ensures
        (forall|q: int|
            0 <= q < niver_deleted(c, v).len() ==> clause_true(
                c.clauses@[#[trigger] niver_deleted(c, v)[q]],
                a.insert(v, true),
            )) || (forall|q: int|
            0 <= q < niver_deleted(c, v).len() ==> clause_true(
                c.clauses@[#[trigger] niver_deleted(c, v)[q]],
                a.insert(v, false),
            )),
{
    let pos = c.vars@[v].pos_occ@;
    let neg = c.vars@[v].neg_occ@;
    let del = niver_deleted(c, v);
    let at = a.insert(v, true);
    let af = a.insert(v, false);
    lemma_distinct(pos + neg);
    assert forall|id: ClauseID| pos.contains(id) implies clause_true(c.clauses@[id], at) by {
        let w = choose|w: int| 0 <= w < pos.len() && pos[w] == id;
        let cl = c.clauses@[id];
        let j = choose|j: int| 0 <= j < cl.lits@.len() && cl.lits@[j] == Lit(v as i32);
        assert(lit_true_in(cl.lits@[j], at));
    }
    assert forall|id: ClauseID| neg.contains(id) implies clause_true(c.clauses@[id], af) by {
        let w = choose|w: int| 0 <= w < neg.len() && neg[w] == id;
        let cl = c.clauses@[id];
        let j = choose|j: int| 0 <= j < cl.lits@.len() && cl.lits@[j] == Lit((-(v as int)) as i32);
        assert(lit_true_in(cl.lits@[j], af));
    }
    if !(forall|q: int| 0 <= q < del.len() ==> clause_true(c.clauses@[#[trigger] del[q]], at)) {
        let q0 = choose|q: int| 0 <= q < del.len() && !clause_true(c.clauses@[#[trigger] del[q]], at);
        let n0 = del[q0];
        assert(del.contains(n0));
        assert((pos + neg).contains(n0));
        let w0 = choose|w: int| 0 <= w < (pos + neg).len() && (pos + neg)[w] == n0;
        if w0 < pos.len() {
            assert(pos.contains(n0));
        }
        assert(neg.contains(n0)) by {
            assert((pos + neg)[w0] == neg[w0 - pos.len()]);
        }
        let c0 = c.clauses@[n0];
        assert forall|j: int| 0 <= j < c0.lits@.len() && var_of(c0.lits@[j].0) != v as int implies !lit_true_in(
            #[trigger] c0.lits@[j],
            a,
        ) by {
            assert(!lit_true_in(c0.lits@[j], at));
        }
        assert forall|q: int| 0 <= q < del.len() implies clause_true(c.clauses@[#[trigger] del[q]], af) by {
            let id = del[q];
            assert(del.contains(id));
            assert((pos + neg).contains(id));
            let w = choose|w: int| 0 <= w < (pos + neg).len() && (pos + neg)[w] == id;
            if w >= pos.len() {
                assert((pos + neg)[w] == neg[w - pos.len()]);
                assert(neg.contains(id));
            } else {
                assert((pos + neg)[w] == pos[w]);
                assert(pos.contains(id));
                let cp = c.clauses@[id];
                if pre_resolvent_tautology_spec(cp, c0, v) {
                    let j = choose|j: int|
                        0 <= j < cp.lits@.len() && var_of((#[trigger] cp.lits@[j]).0) != v as int && c0.lits@.contains(
                            Lit((-cp.lits@[j].0) as i32),
                        );
                    let l = cp.lits@[j];
                    assert(lits_in(cp, c.vars@));
                    assert(lit_in(l, c.vars@));
                    let k = choose|k: int| 0 <= k < c0.lits@.len() && c0.lits@[k] == Lit((-l.0) as i32);
                    assert(!lit_true_in(c0.lits@[k], a));
                    assert(lit_true_in(l, a));
                    assert(lit_true_in(cp.lits@[j], af));
                } else {
                    lemma_pairs_complete(c.clauses@, pos, neg, v, id, n0);
                    let rs = niver_resolvents(c, v);
                    let t = choose|t: int| 0 <= t < rs.len() && rs[t] == (id, n0);
                    let rl = resolvent_lits(cp, c0, v);
                    assert(rs[t].0 == id && rs[t].1 == n0);
                    let j = choose|j: int| 0 <= j < rl.len() && lit_true_in(rl[j], a);
                    let l = rl[j];
                    let both = distinct(cp.lits@ + c0.lits@);
                    distinct(cp.lits@ + c0.lits@).lemma_filter_pred(|l: Lit| var_of(l.0) != v as int, j);
                    assert(both.filter(|l: Lit| var_of(l.0) != v as int).contains(l));
                    both.lemma_filter_contains_rev(|l: Lit| var_of(l.0) != v as int, l);
                    lemma_distinct(cp.lits@ + c0.lits@);
                    assert((cp.lits@ + c0.lits@).contains(l));
                    let x = choose|x: int| 0 <= x < (cp.lits@ + c0.lits@).len() && (cp.lits@ + c0.lits@)[x] == l;
                    if x >= cp.lits@.len() {
                        assert((cp.lits@ + c0.lits@)[x] == c0.lits@[x - cp.lits@.len()]);
                        assert(!lit_true_in(c0.lits@[x - cp.lits@.len()], a));
                    } else {
                        assert((cp.lits@ + c0.lits@)[x] == cp.lits@[x]);
                        assert(lit_true_in(cp.lits@[x], af));
                    }
                }
            }
        }
    }
}

/// One resolvent that NiVER would add for `v` has a literal true under an assignment that
/// makes the clauses it would take out true; `j` is its position.
proof fn lemma_resolvent_true(c: CNF, v: VarId, a: Map<VarId, bool>, t: int) -> (j: int)
    requires
        c.wf(),
        c.vars@.contains_key(v),
        1 <= v < i32::MAX,
        forall|q: int|
            0 <= q < c.vars@[v].pos_occ@.len() ==> c.clauses@[(#[trigger] c.vars@[v].pos_occ@[q])].lits@.contains(
                Lit(v as i32),
            ) && !c.clauses@[c.vars@[v].pos_occ@[q]].lits@.contains(Lit((-(v as int)) as i32)),
        forall|q: int|
            0 <= q < c.vars@[v].neg_occ@.len() ==> c.clauses@[(#[trigger] c.vars@[v].neg_occ@[q])].lits@.contains(
                Lit((-(v as int)) as i32),
            ) && !c.clauses@[c.vars@[v].neg_occ@[q]].lits@.contains(Lit(v as i32)),
        forall|q: int|
            0 <= q < niver_deleted(c, v).len() ==> clause_true(c.clauses@[#[trigger] niver_deleted(c, v)[q]], a),
        0 <= t < niver_resolvents(c, v).len(),
    ensures
        0 <= j < resolvent_lits(
            c.clauses@[niver_resolvents(c, v)[t].0],
            c.clauses@[niver_resolvents(c, v)[t].1],
            v,
        ).len(),
        lit_true_in(
            resolvent_lits(c.clauses@[niver_resolvents(c, v)[t].0], c.clauses@[niver_resolvents(c, v)[t].1], v)[j],
            a,
        ),
{
    let pos = c.vars@[v].pos_occ@;
    let neg = c.vars@[v].neg_occ@;
    let rs = niver_resolvents(c, v);
    let pred = |l: Lit| var_of(l.0) != v as int;
    lemma_distinct(pos + neg);
    lemma_pairs_from(c.clauses@, pos, neg, v);
    let p = rs[t].0;
    let n = rs[t].1;
    assert(pos.contains(p) && neg.contains(n));
    let wp = choose|w: int| 0 <= w < pos.len() && pos[w] == p;
    let wn = choose|w: int| 0 <= w < neg.len() && neg[w] == n;
    assert((pos + neg)[wp] == p);
    assert((pos + neg)[pos.len() + wn] == n);
    assert((pos + neg).contains(p) && (pos + neg).contains(n));
    assert(niver_deleted(c, v) == distinct(pos + neg));
    assert(niver_deleted(c, v).contains(p) && niver_deleted(c, v).contains(n));
    let qp = choose|q: int| 0 <= q < niver_deleted(c, v).len() && niver_deleted(c, v)[q] == p;
    let qn = choose|q: int| 0 <= q < niver_deleted(c, v).len() && niver_deleted(c, v)[q] == n;
    let cp = c.clauses@[p];
    let cn = c.clauses@[n];
    assert(clause_true(cp, a) && clause_true(cn, a));
    let jp = choose|j: int| 0 <= j < cp.lits@.len() && lit_true_in(#[trigger] cp.lits@[j], a);
    let jn = choose|j: int| 0 <= j < cn.lits@.len() && lit_true_in(#[trigger] cn.lits@[j], a);
    let both = cp.lits@ + cn.lits@;
    lemma_distinct(both);
    let rl = resolvent_lits(cp, cn, v);
    let l = if var_of(cp.lits@[jp].0) != v as int {
        cp.lits@[jp]
    } else {
        cn.lits@[jn]
    };
    assert(lit_true_in(l, a));
    assert(var_of(l.0) != v as int) by {
        if var_of(cp.lits@[jp].0) == v as int && var_of(cn.lits@[jn].0) == v as int {
            assert(lits_in(cp, c.vars@) && lits_in(cn, c.vars@));
            assert(lit_in(cp.lits@[jp], c.vars@) && lit_in(cn.lits@[jn], c.vars@));
            if cp.lits@[jp].0 > 0 {
                assert(cp.lits@[jp] == Lit(v as i32));
                if cn.lits@[jn].0 > 0 {
                    assert(cn.lits@[jn] == Lit(v as i32));
                    assert(cn.lits@.contains(Lit(v as i32)));
                }
            } else {
                assert(cp.lits@[jp] == Lit((-(v as int)) as i32));
                assert(cp.lits@.contains(Lit((-(v as int)) as i32)));
            }
        }
    }
    assert(both.contains(l)) by {
        if var_of(cp.lits@[jp].0) != v as int {
            assert(both[jp] == l);
        } else {
            assert(both[cp.lits@.len() + jn] == l);
        }
    }
    assert(distinct(both).contains(l));
    let k = choose|k: int| 0 <= k < distinct(both).len() && distinct(both)[k] == l;
    distinct(both).lemma_filter_contains(pred, k);
    assert(rl.contains(l));
    let j = choose|j: int| 0 <= j < rl.len() && rl[j] == l;
    assert(lit_true_in(rl[j], a));
    j
}

/// The resolvent at position `t` of those NiVER would add for `v` has a literal true under
/// the assignment.
pub open spec fn resolvent_true(c: CNF, v: VarId, a: Map<VarId, bool>, t: int) -> bool {
    let lits = resolvent_lits(c.clauses@[niver_resolvents(c, v)[t].0], c.clauses@[niver_resolvents(c, v)[t].1], v);
    exists|j: int| 0 <= j < lits.len() && lit_true_in(#[trigger] lits[j], a)
}

/// NiVER keeps every model: an assignment that makes every clause NiVER would take out for `v`
/// true makes every resolvent it would add true, given that each positive occurrence holds
/// `v` and not its negation, and each negative occurrence the other way round.
pub proof fn law_niver_resolvents_implied(c: CNF, v: VarId, a: Map<VarId, bool>)
    requires
        c.wf(),
        c.vars@.contains_key(v),
        1 <= v < i32::MAX,
        forall|q: int|
            0 <= q < c.vars@[v].pos_occ@.len() ==> c.clauses@[(#[trigger] c.vars@[v].pos_occ@[q])].lits@.contains(
                Lit(v as i32),
            ) && !c.clauses@[c.vars@[v].pos_occ@[q]].lits@.contains(Lit((-(v as int)) as i32)),
        forall|q: int|
            0 <= q < c.vars@[v].neg_occ@.len() ==> c.clauses@[(#[trigger] c.vars@[v].neg_occ@[q])].lits@.contains(
                Lit((-(v as int)) as i32),
            ) && !c.clauses@[c.vars@[v].neg_occ@[q]].lits@.contains(Lit(v as i32)),
        forall|q: int|
            0 <= q < niver_deleted(c, v).len() ==> clause_true(c.clauses@[#[trigger] niver_deleted(c, v)[q]], a),
    ensures
        forall|t: int| 0 <= t < niver_resolvents(c, v).len() ==> #[trigger] resolvent_true(c, v, a, t),
{
    assert forall|t: int| 0 <= t < niver_resolvents(c, v).len() implies #[trigger] resolvent_true(c, v, a, t) by {
        let j = lemma_resolvent_true(c, v, a, t);
    }
}

/// The literal is true under the assignment.
pub open spec fn lit_true_in(l: Lit, a: Map<VarId, bool>) -> bool {
    if l.0 > 0 {
        a[var_of(l.0) as u32]
    } else {
        !a[var_of(l.0) as u32]
    }
}

/// Every active clause has a true literal under the assignment.
pub open spec fn active_satisfied(cs: Map<ClauseID, Clause>, a: Map<VarId, bool>) -> bool {
    forall|id: ClauseID|
        #[trigger] cs.contains_key(id) && cs[id].active ==> exists|j: int|
            0 <= j < cs[id].lits@.len() && lit_true_in(#[trigger] cs[id].lits@[j], a)
}

/// The clauses with the given IDs made active again.
pub open spec fn reactivated(cs: Map<ClauseID, Clause>, ids: Seq<ClauseID>) -> Map<ClauseID, Clause> {
    Map::new(
        |id: ClauseID| cs.contains_key(id),
        |id: ClauseID|
            if ids.contains(id) {
                Clause { lits: cs[id].lits, sig: cs[id].sig, active: true }
            } else {
                cs[id]
            },
    )
}

/// The assignment after undoing the eliminations of the trace, the last one first: the clauses
/// an elimination took out become active again, and its variable is true unless that leaves an
/// active clause without a true literal, in which case it is false.
pub open spec fn recovered(trace: Seq<(VarId, Seq<ClauseID>)>, cs: Map<ClauseID, Clause>, a: Map<VarId, bool>) -> Map<
    VarId,
    bool,
>
    decreases trace.len(),
{
    if trace.len() == 0 {
        a
    } else {
        let (v, ids) = trace.last();
        let cs1 = reactivated(cs, ids);
        let a1 = if active_satisfied(cs1, a.insert(v, true)) {
            a.insert(v, true)
        } else {
            a.insert(v, false)
        };
        recovered(trace.drop_last(), cs1, a1)
    }
}

/// The trace as values.
pub open spec fn trace_view(trace: Seq<(VarId, Vec<ClauseID>)>) -> Seq<(VarId, Seq<ClauseID>)> {
    trace.map_values(|t: (VarId, Vec<ClauseID>)| (t.0, t.1@))
}

/// The variables of the literals of the clauses are assigned.
pub open spec fn clause_vars_assigned(cs: Map<ClauseID, Clause>, a: Map<VarId, bool>) -> bool {
    forall|id: ClauseID, j: int|
        #[trigger] cs.contains_key(id) && 0 <= j < cs[id].lits@.len() ==> a.contains_key(
            var_of((#[trigger] cs[id].lits@[j]).0) as u32,
        )
}

/// The assignment of a solved formula as a map: variable `i + 1` has the value at position `i`,
/// true where it is unassigned.
pub open spec fn formula_assignment(a: Seq<Option<bool>>) -> Map<VarId, bool> {
    Map::new(
        |v: VarId| 1 <= v <= a.len(),
        |v: VarId|
            match a[v - 1] {
                Some(b) => b,
                None => true,
            },
    )
}

fn pre_resolvant_tautology(clause_id_1: ClauseID, clause_id_2: ClauseID, var_id: VarId, cnf: &CNF) -> (r: bool)
    requires
        cnf.wf(),
        cnf.clauses@.contains_key(clause_id_1),
        cnf.clauses@.contains_key(clause_id_2),
    ensures
        r == pre_resolvent_tautology_spec(cnf.clauses@[clause_id_1], cnf.clauses@[clause_id_2], var_id),
{
    let clause_1 = fx_get(&cnf.clauses, clause_id_1).unwrap();
    let clause_2 = fx_get(&cnf.clauses, clause_id_2).unwrap();
    assert(lits_in(*clause_1, cnf.vars@));
    let n = clause_1.lits.len();
    let mut i: usize = 0;
    while i < n
        invariant
            n == clause_1.lits@.len(),
            *clause_1 == cnf.clauses@[clause_id_1],
            *clause_2 == cnf.clauses@[clause_id_2],
            lits_in(*clause_1, cnf.vars@),
            i <= n,
            forall|j: int|
                0 <= j < i ==> !(var_of((#[trigger] clause_1.lits@[j]).0) != var_id as int
                    && clause_2.lits@.contains(Lit((-clause_1.lits@[j].0) as i32))),
        decreases n - i,
    {
        let lit = clause_1.lits[i];
        assert(lit_in(clause_1.lits@[i as int], cnf.vars@));
        if lit.var_id() != var_id {
            let neg = lit.neg();
            let mut k: usize = 0;
            while k < clause_2.lits.len()
                invariant
                    k <= clause_2.lits@.len(),
                    i < clause_1.lits@.len(),
                    lit == clause_1.lits@[i as int],
                    *clause_1 == cnf.clauses@[clause_id_1],
                    *clause_2 == cnf.clauses@[clause_id_2],
                    var_of(lit.0) != var_id as int,
                    neg.0 == -lit.0,
                    forall|q: int| 0 <= q < k ==> clause_2.lits@[q] != neg,
                decreases clause_2.lits@.len() - k,
            {
                if clause_2.lits[k] == neg {
                    assert(clause_2.lits@[k as int] == Lit((-clause_1.lits@[i as int].0) as i32));
                    assert(clause_2.lits@.contains(Lit((-clause_1.lits@[i as int].0) as i32)));
                    assert(var_of((clause_1.lits@[i as int]).0) != var_id as int);
                    return true;
                }
                k = k + 1;
            }
        }
        i = i + 1;
    }
    false
}

/// Appends `x` to the distinct literals of another variable than `var_id` read so far, unless
/// it is of `var_id` or there already.
fn push_distinct(acc: &mut Vec<Lit>, x: Lit, var_id: VarId, t: Ghost<Seq<Lit>>)
    requires
        old(acc)@ == distinct(t@).filter(|l: Lit| var_of(l.0) != var_id as int),
        x.0 != i32::MIN,
    ensures
        final(acc)@ == distinct(t@.push(x)).filter(|l: Lit| var_of(l.0) != var_id as int),
{
    let ghost p = |l: Lit| var_of(l.0) != var_id as int;
    let ghost d = distinct(t@);
    proof {
        assert(t@.push(x).drop_last() =~= t@);
        assert(t@.push(x).last() == x);
        lemma_distinct(t@);
    }
    if x.var_id() != var_id {
        let mut seen = false;
        let mut q: usize = 0;
        while q < acc.len()
            invariant
                q <= acc@.len(),
                seen == exists|w: int| 0 <= w < q && acc@[w] == x,
            decreases acc@.len() - q,
        {
            if acc[q] == x {
                seen = true;
            }
            q = q + 1;
        }
        proof {
            assert(seen == acc@.contains(x));
            if d.contains(x) {
                let w = choose|w: int| 0 <= w < d.len() && d[w] == x;
                d.lemma_filter_contains(p, w);
            } else {
                if acc@.contains(x) {
                    d.lemma_filter_contains_rev(p, x);
                }
            }
        }
        if !seen {
            acc.push(x);
            proof {
                d.lemma_filter_push(x, p);
            }
        }
    } else {
        proof {
            if !d.contains(x) {
                d.lemma_filter_push(x, p);
            }
        }
    }
}

/// The literals of the resolvent of two clauses on `v`, as `resolvent_lits` gives them.
fn resolvent(clause_1: &Clause, clause_2: &Clause, var_id: VarId, cnf: &CNF) -> (r: Vec<Lit>)
    requires
        lits_in(*clause_1, cnf.vars@),
        lits_in(*clause_2, cnf.vars@),
    ensures
        r@ == resolvent_lits(*clause_1, *clause_2, var_id),
        forall|q: int| 0 <= q < r@.len() ==> lit_in(#[trigger] r@[q], cnf.vars@),
{
    let ghost s = clause_1.lits@ + clause_2.lits@;
    let mut acc: Vec<Lit> = Vec::new();
    let mut k: usize = 0;
    while k < clause_1.lits.len()
        invariant
            s == clause_1.lits@ + clause_2.lits@,
            lits_in(*clause_1, cnf.vars@),
            k <= clause_1.lits@.len(),
            acc@ == distinct(s.take(k as int)).filter(|l: Lit| var_of(l.0) != var_id as int),
        decreases clause_1.lits@.len() - k,
    {
        let x = clause_1.lits[k];
        assert(lit_in(clause_1.lits@[k as int], cnf.vars@));
        push_distinct(&mut acc, x, var_id, Ghost(s.take(k as int)));
        assert(s.take(k + 1) =~= s.take(k as int).push(x));
        k = k + 1;
    }
    let n1 = clause_1.lits.len();
    let mut j: usize = 0;
    while j < clause_2.lits.len()
        invariant
            s == clause_1.lits@ + clause_2.lits@,
            lits_in(*clause_2, cnf.vars@),
            n1 == clause_1.lits@.len(),
            j <= clause_2.lits@.len(),
            acc@ == distinct(s.take(n1 + j)).filter(|l: Lit| var_of(l.0) != var_id as int),
        decreases clause_2.lits@.len() - j,
    {
        let x = clause_2.lits[j];
        assert(lit_in(clause_2.lits@[j as int], cnf.vars@));
        push_distinct(&mut acc, x, var_id, Ghost(s.take(n1 + j)));
        assert(s.take(n1 + j + 1) =~= s.take(n1 + j).push(x));
        j = j + 1;
    }
    assert(s.take(s.len() as int) =~= s);
    proof {
        let p = |l: Lit| var_of(l.0) != var_id as int;
        lemma_distinct(s);
        s.filter_lemma(p);
        assert forall|q: int| 0 <= q < acc@.len() implies lit_in(#[trigger] acc@[q], cnf.vars@) by {
            assert(distinct(s).filter(p).contains(acc@[q]));
            distinct(s).lemma_filter_contains_rev(p, acc@[q]);
            assert(s.contains(acc@[q]));
            let w = choose|w: int| 0 <= w < s.len() && s[w] == acc@[q];
            if w < clause_1.lits@.len() {
                assert(lit_in(clause_1.lits@[w], cnf.vars@));
            } else {
                assert(s[w] == clause_2.lits@[w - clause_1.lits@.len()]);
                assert(lit_in(clause_2.lits@[w - clause_1.lits@.len()], cnf.vars@));
            }
        }
    }
    acc
}

/// Appends `x` to the distinct IDs read so far, unless it is there already.
fn push_new_id(acc: &mut Vec<ClauseID>, x: ClauseID, t: Ghost<Seq<ClauseID>>)
    requires
        old(acc)@ == distinct(t@),
    ensures
        final(acc)@ == distinct(t@.push(x)),
{
    proof {
        assert(t@.push(x).drop_last() =~= t@);
        assert(t@.push(x).last() == x);
    }
    let mut seen = false;
    let mut q: usize = 0;
    while q < acc.len()
        invariant
            q <= acc@.len(),
            seen == exists|w: int| 0 <= w < q && acc@[w] == x,
        decreases acc@.len() - q,
    {
        if acc[q] == x {
            seen = true;
        }
        q = q + 1;
    }
    if !seen {
        acc.push(x);
    }
}

/// `c1` is what NiVER on `v` makes of `c0`, where it applies: the resolvents (in the order of
/// `resolvent_pairs`) are added under the next clause IDs, and the clauses `ids`, those `v`
/// occurs in, are taken out.
pub open spec fn niver_step(c0: CNF, c1: CNF, v: VarId, ids: Seq<ClauseID>) -> bool {
    &&& c0.vars@.contains_key(v)
    &&& niver_applies(c0, v)
    &&& ids == niver_deleted(c0, v)
    &&& c1.max_clause_id == c0.max_clause_id + niver_resolvents(c0, v).len()
    &&& c1.vars@.dom() == c0.vars@.dom()
    &&& forall|id: ClauseID|
        #[trigger] c1.clauses@.contains_key(id) <==> (c0.clauses@.contains_key(id) || (c0.max_clause_id < id
            <= c1.max_clause_id))
    &&& forall|t: int|
        0 <= t < niver_resolvents(c0, v).len() ==> {
            let c = #[trigger] c1.clauses@[(c0.max_clause_id + 1 + t) as ClauseID];
            let pair = niver_resolvents(c0, v)[t];
            &&& c.lits@ == resolvent_lits(c0.clauses@[pair.0], c0.clauses@[pair.1], v)
            &&& c.sig == signature(c.lits@)
            &&& c.active
        }
    &&& forall|id: ClauseID|
        #[trigger] c0.clauses@.contains_key(id) ==> c1.clauses@[id].lits == c0.clauses@[id].lits
            && c1.clauses@[id].sig == c0.clauses@[id].sig && c1.clauses@[id].active == (c0.clauses@[id].active
            && !niver_deleted(c0, v).contains(id))
}

/// NiVER eliminated `v` from some well-formed formula where it applied, taking out the clauses
/// `ids`, those `v` occurred in there.
pub open spec fn niver_elimination(v: VarId, ids: Seq<ClauseID>) -> bool {
    exists|c0: CNF, c1: CNF| c0.wf() && #[trigger] niver_step(c0, c1, v, ids)
}

/// The states pass from one to the next by the NiVER steps of the trace, in order.
pub open spec fn niver_states(states: Seq<CNF>, trace: Seq<(VarId, Seq<ClauseID>)>) -> bool {
    &&& states.len() == trace.len() + 1
    &&& forall|i: int| 0 <= i < trace.len() ==> niver_step(states[i], states[i + 1], (#[trigger] trace[i]).0, trace[i].1)
}

/// The trace lists, in order, NiVER steps that lead from `c0` to `c1`.
pub open spec fn niver_chain(c0: CNF, c1: CNF, trace: Seq<(VarId, Seq<ClauseID>)>) -> bool {
    exists|states: Seq<CNF>| #[trigger] niver_states(states, trace) && states[0] == c0 && states.last() == c1
}

/// The empty trace leads from a formula to itself.
pub proof fn lemma_chain_empty(c0: CNF)
    ensures
        niver_chain(c0, c0, Seq::empty()),
{
    let states = seq![c0];
    assert(niver_states(states, Seq::empty()));
}

/// One more NiVER step extends a chain.
pub proof fn lemma_chain_push(
    c0: CNF,
    cm: CNF,
    c1: CNF,
    trace: Seq<(VarId, Seq<ClauseID>)>,
    v: VarId,
    ids: Seq<ClauseID>,
)
    requires
        niver_chain(c0, cm, trace),
        niver_step(cm, c1, v, ids),
    ensures
        niver_chain(c0, c1, trace.push((v, ids))),
{
    let states = choose|states: Seq<CNF>| #[trigger] niver_states(states, trace) && states[0] == c0 && states.last() == cm;
    let s1 = states.push(c1);
    let t1 = trace.push((v, ids));
    assert forall|i: int| 0 <= i < t1.len() implies niver_step(s1[i], s1[i + 1], (#[trigger] t1[i]).0, t1[i].1) by {
        if i < trace.len() {
            assert(t1[i] == trace[i]);
            assert(niver_step(states[i], states[i + 1], trace[i].0, trace[i].1));
        }
    }
    assert(niver_states(s1, t1));
}

/// NiVER on one variable: where the variable occurs and its non-tautological resolvents are
/// no more than the clauses it occurs in, the resolvents are added (in the order of
/// `resolvent_pairs`) and the clauses it occurs in are taken out; returns whether that happened
/// and the IDs of the clauses taken out.
pub fn niver(var_id: VarId, cnf: &mut CNF) -> (r: (bool, Vec<ClauseID>))
    requires
        old(cnf).wf(),
        old(cnf).vars@.contains_key(var_id),
        old(cnf).max_clause_id + old(cnf).vars@[var_id].pos_occ@.len() + old(cnf).vars@[var_id].neg_occ@.len()
            <= u32::MAX,
    ensures
        final(cnf).wf(),
        r.0 == niver_applies(*old(cnf), var_id),
        !r.0 ==> r.1@.len() == 0 && *final(cnf) == *old(cnf),
        r.0 ==> niver_step(*old(cnf), *final(cnf), var_id, r.1@),
{
    let ghost c0 = *cnf;
    let var = fx_get(&cnf.vars, var_id).unwrap();
    assert(occ_in(*var, c0.clauses@));
    let pos = copy_ids(&var.pos_occ);
    let neg = copy_ids(&var.neg_occ);
    let ghost cl = c0.clauses@;
    let mut resolvants: Vec<(ClauseID, ClauseID)> = Vec::new();
    let mut i: usize = 0;
    while i < pos.len()
        invariant
            c0 == *cnf,
            c0.wf(),
            cl == c0.clauses@,
            pos@ == c0.vars@[var_id].pos_occ@,
            neg@ == c0.vars@[var_id].neg_occ@,
            forall|q: int| 0 <= q < pos@.len() ==> cl.contains_key(#[trigger] pos@[q]),
            forall|q: int| 0 <= q < neg@.len() ==> cl.contains_key(#[trigger] neg@[q]),
            i <= pos@.len(),
            resolvants@ == resolvent_pairs(cl, pos@.take(i as int), neg@, var_id),
        decreases pos@.len() - i,
    {
        let p = pos[i];
        let mut j: usize = 0;
        while j < neg.len()
            invariant
                c0 == *cnf,
                c0.wf(),
                cl == c0.clauses@,
                forall|q: int| 0 <= q < neg@.len() ==> cl.contains_key(#[trigger] neg@[q]),
                cl.contains_key(p),
                j <= neg@.len(),
                resolvants@ == resolvent_pairs(cl, pos@.take(i as int), neg@, var_id) + resolvent_row(
                    cl,
                    p,
                    neg@.take(j as int),
                    var_id,
                ),
            decreases neg@.len() - j,
        {
            let n = neg[j];
            proof {
                assert(neg@.take(j + 1).drop_last() =~= neg@.take(j as int));
                assert(neg@.take(j + 1).last() == n);
            }
            if !pre_resolvant_tautology(p, n, var_id, cnf) {
                resolvants.push((p, n));
            }
            j = j + 1;
        }
        proof {
            assert(neg@.take(neg@.len() as int) =~= neg@);
            assert(pos@.take(i + 1).drop_last() =~= pos@.take(i as int));
            assert(pos@.take(i + 1).last() == p);
        }
        i = i + 1;
    }
    assert(pos@.take(pos@.len() as int) =~= pos@);
    let ghost both = pos@ + neg@;
    let mut del: Vec<ClauseID> = Vec::new();
    let mut k: usize = 0;
    while k < pos.len()
        invariant
            both == pos@ + neg@,
            k <= pos@.len(),
            forall|q: int| 0 <= q < pos@.len() ==> cl.contains_key(#[trigger] pos@[q]),
            forall|q: int| 0 <= q < neg@.len() ==> cl.contains_key(#[trigger] neg@[q]),
            del@ == distinct(both.take(k as int)),
        decreases pos@.len() - k,
    {
        push_new_id(&mut del, pos[k], Ghost(both.take(k as int)));
        assert(both.take(k + 1) =~= both.take(k as int).push(pos@[k as int]));
        k = k + 1;
    }
    let np = pos.len();
    let mut k: usize = 0;
    while k < neg.len()
        invariant
            both == pos@ + neg@,
            np == pos@.len(),
            forall|q: int| 0 <= q < pos@.len() ==> cl.contains_key(#[trigger] pos@[q]),
            forall|q: int| 0 <= q < neg@.len() ==> cl.contains_key(#[trigger] neg@[q]),
            k <= neg@.len(),
            del@ == distinct(both.take(np + k)),
        decreases neg@.len() - k,
    {
        push_new_id(&mut del, neg[k], Ghost(both.take(np + k)));
        assert(both.take(np + k + 1) =~= both.take(np + k).push(neg@[k as int]));
        k = k + 1;
    }
    assert(both.take(both.len() as int) =~= both);
    proof {
        lemma_distinct(both);
        assert forall|q: int| 0 <= q < del@.len() implies cl.contains_key(#[trigger] del@[q]) && del@[q] <= c0.max_clause_id by {
            assert(distinct(both).contains(del@[q]));
            assert(both.contains(del@[q]));
            let w = choose|w: int| 0 <= w < both.len() && both[w] == del@[q];
            assert(0 <= w < both.len());
            if w < pos@.len() {
                assert(both[w] == pos@[w]);
                assert(cl.contains_key(pos@[w]));
            } else {
                assert(both[w] == neg@[w - pos@.len()]);
                assert(cl.contains_key(neg@[w - pos@.len()]));
            }
        }
    }
    if del.len() > 0 && resolvants.len() <= del.len() {
        let ghost res = resolvants@;
        proof {
            lemma_pairs_from(cl, pos@, neg@, var_id);
            assert forall|q: int| 0 <= q < res.len() implies cl.contains_key((#[trigger] res[q]).0) && cl.contains_key(res[q].1) by {
                let w1 = choose|w: int| 0 <= w < pos@.len() && pos@[w] == res[q].0;
                let w2 = choose|w: int| 0 <= w < neg@.len() && neg@[w] == res[q].1;
            }
        }
        let max0 = cnf.max_clause_id;
        let mut t: usize = 0;
        while t < resolvants.len()
            invariant
                res == resolvants@,
                res == niver_resolvents(c0, var_id),
                res.len() <= del@.len(),
                del@.len() <= pos@.len() + neg@.len(),
                pos@.len() == c0.vars@[var_id].pos_occ@.len(),
                neg@.len() == c0.vars@[var_id].neg_occ@.len(),
                max0 == c0.max_clause_id,
                forall|id: ClauseID| #[trigger] cl.contains_key(id) ==> id <= max0,
                max0 + pos@.len() + neg@.len() <= u32::MAX,
                cnf.wf(),
                t <= res.len(),
                cnf.max_clause_id == max0 + t,
                cnf.vars@.dom() == c0.vars@.dom(),
                forall|q: int| 0 <= q < res.len() ==> cl.contains_key((#[trigger] res[q]).0) && cl.contains_key(res[q].1),
                forall|id: ClauseID|
                    #[trigger] cnf.clauses@.contains_key(id) <==> (cl.contains_key(id) || (max0 < id <= cnf.max_clause_id)),
                forall|id: ClauseID| #[trigger] cl.contains_key(id) ==> cnf.clauses@[id] == cl[id],
                forall|q: int|
                    0 <= q < t ==> {
                        let c = #[trigger] cnf.clauses@[(max0 + 1 + q) as ClauseID];
                        &&& c.lits@ == resolvent_lits(cl[res[q].0], cl[res[q].1], var_id)
                        &&& c.sig == signature(c.lits@)
                        &&& c.active
                    },
            decreases res.len() - t,
        {
            let (p, n) = resolvants[t];
            let c1 = fx_get(&cnf.clauses, p).unwrap();
            let c2 = fx_get(&cnf.clauses, n).unwrap();
            assert(lits_in(*c1, cnf.vars@));
            assert(lits_in(*c2, cnf.vars@));
            let lits = resolvent(c1, c2, var_id, cnf);
            let clause = Clause::new(lits);
            assert(lits_in(clause, cnf.vars@)) by {
                assert forall|q: int| 0 <= q < clause.lits@.len() implies lit_in(#[trigger] clause.lits@[q], cnf.vars@) by {
                    assert(clause.lits@[q] == lits@[q]);
                }
            }
            let ghost before = cnf.clauses@;
            cnf.add_clause(clause);
            proof {
                assert forall|id: ClauseID| #[trigger] cl.contains_key(id) implies cnf.clauses@[id] == cl[id] by {
                    assert(id <= max0);
                }
                assert forall|q: int|
                    0 <= q < t + 1 implies {
                        let c = #[trigger] cnf.clauses@[(max0 + 1 + q) as ClauseID];
                        &&& c.lits@ == resolvent_lits(cl[res[q].0], cl[res[q].1], var_id)
                        &&& c.sig == signature(c.lits@)
                        &&& c.active
                    } by {
                    if q < t {
                        assert(before.contains_key((max0 + 1 + q) as ClauseID));
                    }
                }
            }
            t = t + 1;
        }
        let ghost c1 = *cnf;
        let mut trace: Vec<ClauseID> = Vec::new();
        let mut q: usize = 0;
        while q < del.len()
            invariant
                cnf.wf(),
                q <= del@.len(),
                trace@ == del@.take(q as int),
                forall|w: int| 0 <= w < del@.len() ==> cl.contains_key(#[trigger] del@[w]) && del@[w] <= max0,
                max0 == c0.max_clause_id,
                cnf.max_clause_id == c1.max_clause_id,
                cnf.vars@.dom() == c1.vars@.dom(),
                cnf.clauses@.dom() == c1.clauses@.dom(),
                forall|id: ClauseID| #[trigger] cl.contains_key(id) ==> c1.clauses@.contains_key(id),
                forall|id: ClauseID|
                    #[trigger] c1.clauses@.contains_key(id) ==> cnf.clauses@[id].lits == c1.clauses@[id].lits
                        && cnf.clauses@[id].sig == c1.clauses@[id].sig && cnf.clauses@[id].active == (
                        c1.clauses@[id].active && !del@.take(q as int).contains(id)),
            decreases del@.len() - q,
        {
            let id = del[q];
            cnf.deactivate_clause(id);
            trace.push(id);
            proof {
                let d1 = del@.take(q + 1);
                let d0 = del@.take(q as int);
                assert(d1 =~= d0.push(id));
                assert forall|x: ClauseID| #[trigger] c1.clauses@.contains_key(x) implies cnf.clauses@[x].lits
                    == c1.clauses@[x].lits && cnf.clauses@[x].sig == c1.clauses@[x].sig
                    && cnf.clauses@[x].active == (c1.clauses@[x].active && !del@.take(q + 1).contains(x)) by {
                    if d1.contains(x) && x != id {
                        let w = choose|w: int| 0 <= w < d1.len() && d1[w] == x;
                        assert(d0[w] == x);
                    }
                    if d0.contains(x) {
                        let w = choose|w: int| 0 <= w < d0.len() && d0[w] == x;
                        assert(d1[w] == x);
                    }
                    if x == id {
                        assert(d1[q as int] == x);
                    }
                }
            }
            q = q + 1;
        }
        assert(del@.take(del@.len() as int) =~= del@);
        proof {
            assert forall|t: int| 0 <= t < res.len() implies {
                let c = #[trigger] cnf.clauses@[(max0 + 1 + t) as ClauseID];
                let pair = niver_resolvents(c0, var_id)[t];
                &&& c.lits@ == resolvent_lits(c0.clauses@[pair.0], c0.clauses@[pair.1], var_id)
                &&& c.sig == signature(c.lits@)
                &&& c.active
            } by {
                let id = (max0 + 1 + t) as ClauseID;
                assert(c1.clauses@.contains_key(id));
                if del@.contains(id) {
                    let w = choose|w: int| 0 <= w < del@.len() && del@[w] == id;
                }
            }
        }
        return (true, trace);
    }
    (false, Vec::new())
}

/// No active variable of the formula can be eliminated by NiVER.
pub open spec fn niver_done(c: CNF) -> bool {
    forall|v: VarId| #![trigger c.vars@[v]] c.vars@.contains_key(v) && c.vars@[v].active ==> !niver_applies(c, v)
}

/// Some active variable occurs in more clauses than there are clause IDs left above
/// `max_clause_id`.
pub open spec fn niver_no_room(c: CNF) -> bool {
    exists|v: VarId|
        #![trigger c.vars@[v]]
        c.vars@.contains_key(v) && c.vars@[v].active && c.max_clause_id + c.vars@[v].pos_occ@.len()
            + c.vars@[v].neg_occ@.len() > u32::MAX
}

/// NiVER on every active variable (in the order in which the map of variables is walked), round
/// after round, until a round changes nothing; returns each elimination with the IDs of the
/// clauses it took out, which stay out. It stops early where the clause IDs could run out (more
/// than `u32::MAX` would be needed), and after `u64::MAX` rounds; otherwise no active variable
/// can be eliminated at the end.
#[verifier::spinoff_prover]
pub fn niver_all(cnf: &mut CNF) -> (r: Vec<(VarId, Vec<ClauseID>)>)
    requires
        old(cnf).wf(),
    ensures
        final(cnf).wf(),
        niver_chain(*old(cnf), *final(cnf), trace_view(r@)),
        niver_done(*final(cnf)) || niver_no_room(*final(cnf)) || r@.len() >= u64::MAX,
        forall|t: int, q: int|
            0 <= t < r@.len() && 0 <= q < r@[t].1@.len() ==> !final(cnf).clauses@[#[trigger] r@[t].1@[q]].active,
        final(cnf).vars@.dom() == old(cnf).vars@.dom(),
        forall|id: ClauseID| #[trigger] old(cnf).clauses@.contains_key(id) ==> final(cnf).clauses@.contains_key(id),
        forall|t: int, q: int|
            0 <= t < r@.len() && 0 <= q < r@[t].1@.len() ==> final(cnf).clauses@.contains_key(
                #[trigger] r@[t].1@[q],
            ),
        forall|t: int| 0 <= t < r@.len() ==> final(cnf).vars@.contains_key(#[trigger] r@[t].0),
{
    let mut change = true;
    let mut niver_trace: Vec<(VarId, Vec<ClauseID>)> = Vec::new();
    proof {
        lemma_chain_empty(*cnf);
        assert(trace_view(niver_trace@) =~= Seq::<(VarId, Seq<ClauseID>)>::empty());
    }
    let mut fuel: u64 = u64::MAX;
    while change && fuel > 0
        invariant
            cnf.wf(),
            cnf.vars@.dom() == old(cnf).vars@.dom(),
            forall|id: ClauseID| #[trigger] old(cnf).clauses@.contains_key(id) ==> cnf.clauses@.contains_key(id),
            forall|t: int, q: int|
                0 <= t < niver_trace@.len() && 0 <= q < niver_trace@[t].1@.len() ==> cnf.clauses@.contains_key(
                    #[trigger] niver_trace@[t].1@[q],
                ),
            forall|t: int| 0 <= t < niver_trace@.len() ==> cnf.vars@.contains_key(#[trigger] niver_trace@[t].0),
            forall|t: int, q: int|
                0 <= t < niver_trace@.len() && 0 <= q < niver_trace@[t].1@.len() ==> !cnf.clauses@[#[trigger] niver_trace@[t].1@[q]].active,
            change ==> niver_trace@.len() >= u64::MAX - fuel,
            niver_chain(*old(cnf), *cnf, trace_view(niver_trace@)),
            !change ==> niver_done(*cnf),
        decreases fuel,
    {
        fuel = fuel - 1;
        change = false;
        let ghost len0 = niver_trace@.len();
        let var_ids = fx_keys(&cnf.vars);
        let mut i: usize = 0;
        while i < var_ids.len()
            invariant
                var_ids@.to_set() == cnf.vars@.dom(),
                i <= var_ids@.len(),
                cnf.wf(),
                cnf.vars@.dom() == old(cnf).vars@.dom(),
                forall|id: ClauseID| #[trigger] old(cnf).clauses@.contains_key(id) ==> cnf.clauses@.contains_key(id),
                forall|t: int, q: int|
                    0 <= t < niver_trace@.len() && 0 <= q < niver_trace@[t].1@.len() ==> cnf.clauses@.contains_key(
                        #[trigger] niver_trace@[t].1@[q],
                    ),
                forall|t: int| 0 <= t < niver_trace@.len() ==> cnf.vars@.contains_key(#[trigger] niver_trace@[t].0),
                forall|t: int, q: int|
                    0 <= t < niver_trace@.len() && 0 <= q < niver_trace@[t].1@.len() ==> !cnf.clauses@[#[trigger] niver_trace@[t].1@[q]].active,
                len0 >= u64::MAX - fuel - 1,
                niver_chain(*old(cnf), *cnf, trace_view(niver_trace@)),
                niver_trace@.len() >= len0,
                change ==> niver_trace@.len() > len0,
                !change ==> forall|j: int|
                    0 <= j < i && cnf.vars@[#[trigger] var_ids@[j]].active ==> !niver_applies(*cnf, var_ids@[j]),
            decreases var_ids@.len() - i,
        {
            let var_id = var_ids[i];
            assert(var_ids@.to_set().contains(var_id));
            let ghost c_it = *cnf;
            let var = fx_get(&cnf.vars, var_id).unwrap();
            if var.active {
                let room = u32::MAX - cnf.max_clause_id;
                if var.pos_occ.len() > room as usize || var.neg_occ.len() > room as usize - var.pos_occ.len() {
                    assert(cnf.vars@.contains_key(var_id) && cnf.vars@[var_id].active);
                    return niver_trace;
                }
                let ghost before = cnf.clauses@;
                let ghost cb = *cnf;
                let (change_, niver_trace_) = niver(var_id, cnf);
                if change_ {
                    change = true;
                    let ghost t0 = niver_trace@;
                    niver_trace.push((var_id, niver_trace_));
                    proof {
                        lemma_chain_push(*old(cnf), cb, *cnf, trace_view(t0), var_id, niver_trace_@);
                        assert(trace_view(niver_trace@) =~= trace_view(t0).push((var_id, niver_trace_@)));
                        assert forall|t: int, q: int|
                            0 <= t < niver_trace@.len() && 0 <= q < niver_trace@[t].1@.len() implies cnf.clauses@.contains_key(
                            #[trigger] niver_trace@[t].1@[q],
                        ) by {
                            if t < t0.len() {
                                assert(niver_trace@[t] == t0[t]);
                                assert(before.contains_key(t0[t].1@[q]));
                            } else {
                                let x = niver_trace@[t].1@[q];
                                let pos = cb.vars@[var_id].pos_occ@;
                                let neg = cb.vars@[var_id].neg_occ@;
                                let both = pos + neg;
                                lemma_distinct(both);
                                assert(niver_trace@[t].1@ == distinct(both));
                                assert(distinct(both).contains(x));
                                assert(both.contains(x));
                                assert(occ_in(cb.vars@[var_id], before));
                                let w = choose|w: int| 0 <= w < both.len() && both[w] == x;
                                if w < pos.len() {
                                    assert(both[w] == pos[w]);
                                    assert(before.contains_key(pos[w]));
                                } else {
                                    assert(both[w] == neg[w - pos.len()]);
                                    assert(before.contains_key(neg[w - pos.len()]));
                                }
                            }
                        }
                        assert forall|t: int| 0 <= t < niver_trace@.len() implies cnf.vars@.contains_key(
                            #[trigger] niver_trace@[t].0,
                        ) by {
                            if t < t0.len() {
                                assert(niver_trace@[t] == t0[t]);
                            }
                        }
                        assert forall|t: int, q: int|
                            0 <= t < niver_trace@.len() && 0 <= q < niver_trace@[t].1@.len() implies !cnf.clauses@[#[trigger] niver_trace@[t].1@[q]].active by {
                            let x = niver_trace@[t].1@[q];
                            assert(before.contains_key(x)) by {
                                if t < t0.len() {
                                    assert(niver_trace@[t] == t0[t]);
                                } else {
                                    let pos = cb.vars@[var_id].pos_occ@;
                                    let neg = cb.vars@[var_id].neg_occ@;
                                    let both = pos + neg;
                                    lemma_distinct(both);
                                    assert(niver_trace@[t].1@ == distinct(both));
                                    assert(distinct(both).contains(x));
                                    assert(both.contains(x));
                                    assert(occ_in(cb.vars@[var_id], before));
                                    let w = choose|w: int| 0 <= w < both.len() && both[w] == x;
                                    if w < pos.len() {
                                        assert(both[w] == pos[w]);
                                        assert(before.contains_key(pos[w]));
                                    } else {
                                        assert(both[w] == neg[w - pos.len()]);
                                        assert(before.contains_key(neg[w - pos.len()]));
                                    }
                                }
                            }
                            if t < t0.len() {
                                assert(niver_trace@[t] == t0[t]);
                                assert(!before[x].active);
                            } else {
                                assert(niver_deleted(cb, var_id).contains(x));
                            }
                        }
                    }
                } else {
                    assert(*cnf == c_it);
                }
            }
            proof {
                if !change {
                    assert(*cnf == c_it);
                }
            }
            i = i + 1;
        }
        proof {
            if !change {
                assert forall|v: VarId| #![trigger cnf.vars@[v]] cnf.vars@.contains_key(v) && cnf.vars@[v].active implies !niver_applies(*cnf, v) by {
                    assert(var_ids@.to_set().contains(v));
                    let j = choose|j: int| 0 <= j < var_ids@.len() && var_ids@[j] == v;
                    assert(cnf.vars@[var_ids@[j]].active);
                }
            }
        }
    }
    niver_trace
}
/// Whether every active clause has a true literal under the assignment.
fn all_active_satisfied(cnf: &CNF, assignment: &BTreeMap<VarId, bool>) -> (r: bool)
    requires
        cnf.wf(),
        clause_vars_assigned(cnf.clauses@, assignment@),
    ensures
        r == active_satisfied(cnf.clauses@, assignment@),
{
    let keys = fx_keys(&cnf.clauses);
    let mut i: usize = 0;
    while i < keys.len()
        invariant
            keys@.to_set() == cnf.clauses@.dom(),
            cnf.wf(),
            clause_vars_assigned(cnf.clauses@, assignment@),
            i <= keys@.len(),
            forall|k: int|
                0 <= k < i ==> (#[trigger] cnf.clauses@[keys@[k]]).active ==> exists|j: int|
                    0 <= j < cnf.clauses@[keys@[k]].lits@.len() && lit_true_in(
                        #[trigger] cnf.clauses@[keys@[k]].lits@[j],
                        assignment@,
                    ),
        decreases keys@.len() - i,
    {
        let id = keys[i];
        assert(keys@.to_set().contains(id));
        let clause = fx_get(&cnf.clauses, id).unwrap();
        if clause.active {
            assert(lits_in(*clause, cnf.vars@));
            let mut sat = false;
            let mut j: usize = 0;
            while j < clause.lits.len()
                invariant
                    *clause == cnf.clauses@[id],
                    cnf.clauses@.contains_key(id),
                    lits_in(*clause, cnf.vars@),
                    clause_vars_assigned(cnf.clauses@, assignment@),
                    j <= clause.lits@.len(),
                    sat == exists|q: int| 0 <= q < j && lit_true_in(clause.lits@[q], assignment@),
                decreases clause.lits@.len() - j,
            {
                let lit = clause.lits[j];
                assert(lit_in(clause.lits@[j as int], cnf.vars@));
                assert(assignment@.contains_key(var_of(clause.lits@[j as int].0) as u32));
                let value = *assignment.get(&lit.var_id()).unwrap();
                let t = if lit.pos() {
                    value
                } else {
                    !value
                };
                if t {
                    sat = true;
                }
                j = j + 1;
            }
            if !sat {
                return false;
            }
        }
        i = i + 1;
    }
    proof {
        assert forall|id: ClauseID| #[trigger] cnf.clauses@.contains_key(id) && cnf.clauses@[id].active implies exists|j: int|
            0 <= j < cnf.clauses@[id].lits@.len() && lit_true_in(#[trigger] cnf.clauses@[id].lits@[j], assignment@) by {
            assert(keys@.to_set().contains(id));
            let k = choose|k: int| 0 <= k < keys@.len() && keys@[k] == id;
        }
    }
    true
}

/// Extends an assignment of the preprocessed formula to the variables that NiVER eliminated,
/// undoing the trace from its last elimination to its first (see `recovered`).
pub fn recover_assigment_niver(
    niver_trace: Vec<(VarId, Vec<ClauseID>)>,
    cnf: CNF,
    assignment: BTreeMap<VarId, bool>,
) -> (r: BTreeMap<VarId, bool>)
    requires
        cnf.wf(),
        clause_vars_assigned(cnf.clauses@, assignment@),
        forall|t: int, q: int|
            0 <= t < niver_trace@.len() && 0 <= q < niver_trace@[t].1@.len() ==> cnf.clauses@.contains_key(
                #[trigger] niver_trace@[t].1@[q],
            ),
    ensures
        r@ == recovered(trace_view(niver_trace@), cnf.clauses@, assignment@),
{
    let ghost trace0 = trace_view(niver_trace@);
    let ghost cs0 = cnf.clauses@;
    let ghost a0 = assignment@;
    let mut niver_trace = niver_trace;
    let mut cnf = cnf;
    let mut assignment = assignment;
    while niver_trace.len() > 0
        invariant
            cnf.wf(),
            clause_vars_assigned(cnf.clauses@, assignment@),
            forall|t: int, q: int|
                0 <= t < niver_trace@.len() && 0 <= q < niver_trace@[t].1@.len() ==> cnf.clauses@.contains_key(
                    #[trigger] niver_trace@[t].1@[q],
                ),
            recovered(trace_view(niver_trace@), cnf.clauses@, assignment@) == recovered(trace0, cs0, a0),
        decreases niver_trace@.len(),
    {
        let ghost t0 = niver_trace@;
        let ghost cs1 = cnf.clauses@;
        let ghost a1 = assignment@;
        let (var_id, clause_ids) = niver_trace.pop().unwrap();
        proof {
            assert(trace_view(niver_trace@) =~= trace_view(t0).drop_last());
            assert(trace_view(t0).last() == (var_id, clause_ids@));
            assert forall|q: int| 0 <= q < clause_ids@.len() implies cs1.contains_key(#[trigger] clause_ids@[q]) by {
                assert(t0[t0.len() - 1].1@[q] == clause_ids@[q]);
            }
        }
        let mut k: usize = 0;
        while k < clause_ids.len()
            invariant
                k <= clause_ids@.len(),
                forall|q: int| 0 <= q < clause_ids@.len() ==> cs1.contains_key(#[trigger] clause_ids@[q]),
                cnf.clauses@ == reactivated(cs1, clause_ids@.take(k as int)),
                cnf.wf(),
                clause_vars_assigned(cnf.clauses@, a1),
            decreases clause_ids@.len() - k,
        {
            let id = clause_ids[k];
            let c = fx_get_mut(&mut cnf.clauses, id);
            c.active = true;
            proof {
                let t = clause_ids@.take(k as int);
                let t1 = clause_ids@.take(k + 1);
                assert(t1 =~= t.push(id));
                assert forall|x: ClauseID| t1.contains(x) <==> (t.contains(x) || x == id) by {
                    if t1.contains(x) && x != id {
                        let w = choose|w: int| 0 <= w < t1.len() && t1[w] == x;
                        assert(t[w] == x);
                    }
                    if t.contains(x) {
                        let w = choose|w: int| 0 <= w < t.len() && t[w] == x;
                        assert(t1[w] == x);
                    }
                    if x == id {
                        assert(t1[k as int] == x);
                    }
                }
                assert(cnf.clauses@ =~= reactivated(cs1, t1));
                assert(cnf.clauses@.dom() =~= cs1.dom());
                assert forall|x: ClauseID| #[trigger] cnf.clauses@.contains_key(x) implies cnf.clauses@[x].lits == cs1[x].lits by {
                }
            }
            k = k + 1;
        }
        assert(clause_ids@.take(clause_ids@.len() as int) =~= clause_ids@);
        assignment.insert(var_id, true);
        if !all_active_satisfied(&cnf, &assignment) {
            assignment.insert(var_id, false);
            assert(assignment@ =~= a1.insert(var_id, false));
        }
        proof {
            let v = trace_view(t0);
            assert(recovered(v, cs1, a1) == recovered(
                v.drop_last(),
                reactivated(cs1, clause_ids@),
                assignment@,
            ));
        }
    }
    assignment
}

/// Extends the assignment of a solved formula (unassigned variables count as true) to the
/// variables that NiVER eliminated, as `recover_assigment_niver` does.
pub fn recover_assigment_niver_compat(
    niver_trace: Vec<(VarId, Vec<ClauseID>)>,
    cnf: CNF,
    cnf_formula: CnfFormula,
) -> (r: BTreeMap<VarId, bool>)
    requires
        cnf_formula.assignments@.len() < u32::MAX,
        cnf.wf(),
        clause_vars_assigned(cnf.clauses@, formula_assignment(cnf_formula.assignments@)),
        forall|t: int, q: int|
            0 <= t < niver_trace@.len() && 0 <= q < niver_trace@[t].1@.len() ==> cnf.clauses@.contains_key(
                #[trigger] niver_trace@[t].1@[q],
            ),
    ensures
        r@ == recovered(trace_view(niver_trace@), cnf.clauses@, formula_assignment(cnf_formula.assignments@)),
{
    let mut assignment: BTreeMap<VarId, bool> = BTreeMap::new();
    let n = cnf_formula.assignments.len();
    let mut i: usize = 0;
    while i < n
        invariant
            n == cnf_formula.assignments@.len(),
            n < u32::MAX,
            i <= n,
            assignment@ == Map::new(
                |v: VarId| 1 <= v <= i,
                |v: VarId|
                    match cnf_formula.assignments@[v - 1] {
                        Some(b) => b,
                        None => true,
                    },
            ),
        decreases n - i,
    {
        let value = match cnf_formula.assignments[i] {
            Some(b) => b,
            None => true,
        };
        assignment.insert(i as u32 + 1, value);
        proof {
            assert(assignment@ =~= Map::new(
                |v: VarId| 1 <= v <= i + 1,
                |v: VarId|
                    match cnf_formula.assignments@[v - 1] {
                        Some(b) => b,
                        None => true,
                    },
            ));
        }
        i = i + 1;
    }
    assert(assignment@ =~= formula_assignment(cnf_formula.assignments@));
    recover_assigment_niver(niver_trace, cnf, assignment)
}
} // verus!
