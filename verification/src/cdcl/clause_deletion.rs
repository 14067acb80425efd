use crate::cdcl::assignment::Assignment;
use crate::cdcl::cdcl::Cdcl;
use crate::cnf::clause::ClauseID;
use crate::cnf::cnf_formula::{list_ok, watch_lists_ok, CnfFormula};
use crate::cnf::literals::{lit_ok, lit_var, var_of};
use crate::cnf::variable::watch_list;
use vstd::prelude::*;

verus! {

/// Filtering twice is filtering by both conditions.
proof fn lemma_filter_filter(s: Seq<ClauseID>, p: spec_fn(ClauseID) -> bool, q: spec_fn(ClauseID) -> bool)
    ensures
        s.filter(p).filter(q) == s.filter(|w: ClauseID| p(w) && q(w)),
    decreases s.len(),
{
    if s.len() > 0 {
        let t = s.drop_last();
        let x = s.last();
        assert(s =~= t.push(x));
        lemma_filter_filter(t, p, q);
        t.lemma_filter_push(x, p);
        t.lemma_filter_push(x, |w: ClauseID| p(w) && q(w));
        t.filter(p).lemma_filter_push(x, q);
    } else {
        assert(s.filter(p) =~= Seq::<ClauseID>::empty());
        assert(s.filter(|w: ClauseID| p(w) && q(w)) =~= Seq::<ClauseID>::empty());
        assert(s.filter(p).filter(q) =~= Seq::<ClauseID>::empty());
    }
}

/// A condition that holds of every element keeps the whole sequence.
proof fn lemma_filter_all(s: Seq<ClauseID>, p: spec_fn(ClauseID) -> bool)
    requires
        forall|i: int| 0 <= i < s.len() ==> p(s[i]),
    ensures
        s.filter(p) == s,
    decreases s.len(),
{
    if s.len() > 0 {
        let t = s.drop_last();
        assert(s =~= t.push(s.last()));
        assert forall|i: int| 0 <= i < t.len() implies p(t[i]) by {
            assert(t[i] == s[i]);
        }
        lemma_filter_all(t, p);
        t.lemma_filter_push(s.last(), p);
        assert(p(s[s.len() - 1]));
    } else {
        assert(s.filter(p) =~= s);
    }
}

/// Conditions that agree on the elements of a sequence filter it alike.
proof fn lemma_filter_agree(s: Seq<ClauseID>, p: spec_fn(ClauseID) -> bool, q: spec_fn(ClauseID) -> bool)
    requires
        forall|i: int| 0 <= i < s.len() ==> p(s[i]) == q(s[i]),
    ensures
        s.filter(p) == s.filter(q),
    decreases s.len(),
{
    if s.len() > 0 {
        let t = s.drop_last();
        let x = s.last();
        assert(s =~= t.push(x));
        assert forall|i: int| 0 <= i < t.len() implies p(t[i]) == q(t[i]) by {
            assert(t[i] == s[i]);
        }
        lemma_filter_agree(t, p, q);
        t.lemma_filter_push(x, p);
        t.lemma_filter_push(x, q);
        assert(p(s[s.len() - 1]) == q(s[s.len() - 1]));
    } else {
        assert(s.filter(p) =~= Seq::<ClauseID>::empty());
        assert(s.filter(q) =~= Seq::<ClauseID>::empty());
    }
}

/// Every clause ID but `id`.
pub open spec fn other_than(id: ClauseID) -> spec_fn(ClauseID) -> bool {
    |w: ClauseID| w != id
}

/// Filtering keeps a sequence free of repetitions, and keeps only its elements.
proof fn lemma_filter_no_dups(s: Seq<ClauseID>, p: spec_fn(ClauseID) -> bool)
    requires
        s.no_duplicates(),
    ensures
        s.filter(p).no_duplicates(),
        forall|x: ClauseID| s.filter(p).contains(x) ==> s.contains(x),
    decreases s.len(),
{
    if s.len() > 0 {
        let t = s.drop_last();
        let x = s.last();
        assert(s =~= t.push(x));
        assert(t.no_duplicates()) by {
            assert forall|i: int, j: int| 0 <= i < t.len() && 0 <= j < t.len() && i != j implies t[i] != t[j] by {
                assert(t[i] == s[i] && t[j] == s[j]);
            }
        }
        lemma_filter_no_dups(t, p);
        t.lemma_filter_push(x, p);
        assert forall|y: ClauseID| s.filter(p).contains(y) implies s.contains(y) by {
            let f = t.filter(p);
            if f.contains(y) {
                assert(t.contains(y));
                let k = choose|k: int| 0 <= k < t.len() && t[k] == y;
                assert(s[k] == y);
            } else {
                let sf = s.filter(p);
                let k = choose|k: int| 0 <= k < sf.len() && sf[k] == y;
                if p(x) {
                    assert(sf == f.push(x));
                    if k < f.len() {
                        assert(f[k] == y);
                    }
                    assert(y == x);
                } else {
                    assert(sf == f);
                    assert(f[k] == y);
                }
                assert(s[s.len() - 1] == y);
            }
        }
        if p(x) {
            assert(!t.contains(x)) by {
                if t.contains(x) {
                    let k = choose|k: int| 0 <= k < t.len() && t[k] == x;
                    assert(s[k] == s[s.len() - 1]);
                }
            }
            let f = t.filter(p);
            assert forall|i: int, j: int| 0 <= i < f.len() + 1 && 0 <= j < f.len() + 1 && i != j implies f.push(x)[i]
                != f.push(x)[j] by {
                if i < f.len() && j == f.len() {
                    assert(f.contains(f[i]));
                } else if j < f.len() && i == f.len() {
                    assert(f.contains(f[j]));
                }
            }
        }
    } else {
        assert(s.filter(p) =~= Seq::<ClauseID>::empty());
    }
}

/// The clause with this ID is a learned one whose ID is among the freed ones.
pub open spec fn is_learned_freed(f: CnfFormula, id: usize) -> bool {
    f.learned_clause_start <= id < f.clauses@.len() && f.free_indices@.contains(id)
}

/// The clause is the reason of an assignment on the trail.
pub open spec fn is_locked(t: Seq<Assignment>, id: usize) -> bool {
    exists|k: int| 0 <= k < t.len() && t[k].reason == Some(id)
}

/// The clause may be deleted: it is learned and freed, no assignment on the trail rests on it,
/// it is not queued, and its literal block distance exceeds 2.
pub open spec fn deletable(c: Cdcl, id: usize) -> bool {
    &&& is_learned_freed(c.cnf_formula, id)
    &&& !is_locked(c.implication_graph.trail(), id)
    &&& !c.unit_queue@.contains(id)
    &&& c.cnf_formula.clauses@[id as int].literal_block_distance > 2
}

/// The learned clauses whose IDs are among the freed ones.
pub open spec fn learned_freed_set(c: Cdcl) -> Set<usize> {
    Set::new(|id: usize| is_learned_freed(c.cnf_formula, id))
}

/// The clauses that may be deleted.
pub open spec fn deletable_set(c: Cdcl) -> Set<usize> {
    Set::new(|id: usize| deletable(c, id))
}

/// Removing a clause from the watch lists of its literals, and only those.
pub open spec fn unwatched(vars0: Seq<crate::cnf::variable::Variable>, vars1: Seq<crate::cnf::variable::Variable>, lits: Seq<i32>, id: ClauseID) -> bool {
    &&& vars1.len() == vars0.len()
    &&& forall|l: i32|
        #![trigger watch_list(vars1, l as int)]
        lit_ok(l) && 1 <= var_of(l) <= vars0.len() ==> watch_list(vars1, l as int) == if lits.contains(l) {
            watch_list(vars0, l as int).filter(other_than(id))
        } else {
            watch_list(vars0, l as int)
        }
    &&& forall|v: int|
        0 <= v < vars0.len() ==> (#[trigger] vars1[v]).positive_occurrences_count == vars0[v].positive_occurrences_count
            && vars1[v].negative_occurrences_count == vars0[v].negative_occurrences_count
}

/// The clauses in `done` that hold the literal `l` no longer watch it.
pub open spec fn kept_in_list(done: Set<usize>, f0: CnfFormula, l: i32) -> spec_fn(ClauseID) -> bool {
    |w: ClauseID| !(done.contains(w) && f0.clauses@[w as int].literals@.contains(l))
}

/// The clause deletion on `c1` is what `delete_clauses` makes of `c0` when it deletes the
/// clauses `d`: they leave all watch lists, their IDs are freed (the freed IDs are then ordered
/// by `free_key`), the unit queue is emptied, and nothing else changes.
pub open spec fn deleted_as(c0: Cdcl, c1: Cdcl, d: Set<usize>) -> bool {
    let n = c0.cnf_formula.variable_count;
    &&& forall|l: i32|
        #![trigger watch_list(c1.cnf_formula.variables.0@, l as int)]
        lit_ok(l) && 1 <= var_of(l) <= n ==> watch_list(c1.cnf_formula.variables.0@, l as int) == watch_list(
            c0.cnf_formula.variables.0@,
            l as int,
        ).filter(|w: ClauseID| !d.contains(w))
    &&& forall|x: usize|
        #[trigger] c1.cnf_formula.free_indices@.to_multiset().count(x) == c0.cnf_formula.free_indices@.to_multiset().count(x)
            + if d.contains(x) {
            1nat
        } else {
            0nat
        }
    &&& forall|a: int, b: int|
        0 <= a < b < c1.cnf_formula.free_indices@.len() ==> free_key(c1.cnf_formula.free_indices@[a]) <= free_key(
            c1.cnf_formula.free_indices@[b],
        )
    &&& c1.unit_queue@.len() == 0
    &&& c1.cnf_formula.variables.0@.len() == c0.cnf_formula.variables.0@.len()
    &&& forall|v: int|
        0 <= v < n ==> (#[trigger] c1.cnf_formula.variables.0@[v]).positive_occurrences_count
            == c0.cnf_formula.variables.0@[v].positive_occurrences_count
            && c1.cnf_formula.variables.0@[v].negative_occurrences_count
            == c0.cnf_formula.variables.0@[v].negative_occurrences_count
    &&& c1.cnf_formula.clauses == c0.cnf_formula.clauses
    &&& c1.cnf_formula.assignments == c0.cnf_formula.assignments
    &&& c1.cnf_formula.variable_count == c0.cnf_formula.variable_count
    &&& c1.cnf_formula.unset_vars == c0.cnf_formula.unset_vars
    &&& c1.cnf_formula.current_id == c0.cnf_formula.current_id
    &&& c1.cnf_formula.learned_clause_start == c0.cnf_formula.learned_clause_start
    &&& c1.implication_graph == c0.implication_graph
    &&& c1.status == c0.status
    &&& c1.stats == c0.stats
    &&& c1.lit_prio == c0.lit_prio
    &&& c1.lit_counter == c0.lit_counter
    &&& c1.clauses_limit == c0.clauses_limit
}

/// The key by which freed clause IDs are ordered: the negated ID read as an `i32`.
pub open spec fn free_key(x: usize) -> int {
    -((x as i32) as int)
}

/// How often `x` occurs in `s`.
pub open spec fn count_of(s: Seq<usize>, x: usize) -> nat {
    s.filter(|y: usize| y == x).len()
}

/// The IDs in ascending order of their key: the greatest ID first, as long as IDs fit in an
/// `i32`. Equal keys are kept in an order left open.
fn sort_by_free_key(v: Vec<usize>) -> (r: Vec<usize>)
    requires
        forall|i: int| 0 <= i < v@.len() ==> (v@[i] as i32) != i32::MIN,
    ensures
        r@.to_multiset() == v@.to_multiset(),
        forall|a: int, b: int| 0 <= a < b < r@.len() ==> free_key(r@[a]) <= free_key(r@[b]),
{
    broadcast use vstd::seq_lib::group_to_multiset_ensures;
    broadcast use vstd::multiset::group_multiset_axioms;

    let mut rest = v;
    let mut r: Vec<usize> = Vec::new();
    while rest.len() > 0
        invariant
            r@.to_multiset().add(rest@.to_multiset()) == v@.to_multiset(),
            forall|i: int| 0 <= i < rest@.len() ==> (rest@[i] as i32) != i32::MIN,
            forall|a: int, b: int| 0 <= a < b < r@.len() ==> free_key(r@[a]) <= free_key(r@[b]),
            forall|a: int, b: int| 0 <= a < r@.len() && 0 <= b < rest@.len() ==> free_key(r@[a]) <= free_key(rest@[b]),
        decreases rest@.len(),
    {
        let mut m: usize = 0;
        let mut i: usize = 1;
        while i < rest.len()
            invariant
                m < rest@.len(),
                1 <= i <= rest@.len(),
                forall|k: int| 0 <= k < rest@.len() ==> (rest@[k] as i32) != i32::MIN,
                forall|k: int| 0 <= k < i ==> free_key(rest@[m as int]) <= free_key(rest@[k]),
            decreases rest@.len() - i,
        {
            let ki = -(rest[i] as i32);
            let km = -(rest[m] as i32);
            if ki < km {
                m = i;
            }
            i = i + 1;
        }
        let ghost r0 = r@;
        let ghost rest0 = rest@;
        let x = rest.remove(m);
        r.push(x);
        proof {
            r0.to_multiset_ensures();
            assert(rest0.to_multiset() =~= rest@.to_multiset().insert(x)) by {
                assert(rest@ == rest0.remove(m as int));
                rest0.to_multiset_ensures();
                rest@.to_multiset_ensures();
                assert(rest0.contains(x));
                assert(rest0.to_multiset().count(x) > 0);
            }
            assert(r@.to_multiset().add(rest@.to_multiset()) =~= r0.to_multiset().add(rest0.to_multiset()));
            assert forall|a: int, b: int| 0 <= a < b < r@.len() implies free_key(r@[a]) <= free_key(r@[b]) by {
                if b == r@.len() - 1 && a < r0.len() {
                    assert(r@[a] == r0[a]);
                    assert(rest0[m as int] == x);
                } else if b < r0.len() {
                    assert(r@[a] == r0[a] && r@[b] == r0[b]);
                }
            }
            assert forall|a: int, b: int| 0 <= a < r@.len() && 0 <= b < rest@.len() implies free_key(r@[a])
                <= free_key(rest@[b]) by {
                let b0 = if b < m { b } else { b + 1 };
                assert(rest@[b] == rest0[b0]);
                if a < r0.len() {
                    assert(r@[a] == r0[a]);
                }
            }
            assert forall|k: int| 0 <= k < rest@.len() implies (rest@[k] as i32) != i32::MIN by {
                let k0 = if k < m { k } else { k + 1 };
                assert(rest@[k] == rest0[k0]);
            }
        }
    }
    proof {
        assert(rest@.to_multiset() =~= vstd::multiset::Multiset::empty());
        assert(r@.to_multiset().add(vstd::multiset::Multiset::empty()) =~= r@.to_multiset());
    }
    r
}

/// Removes every occurrence of a clause ID from a watch list.
fn retain_other(ws: &mut Vec<ClauseID>, id: ClauseID)
    ensures
        final(ws)@ == old(ws)@.filter(other_than(id)),
{
    let mut out: Vec<ClauseID> = Vec::new();
    let mut i: usize = 0;
    while i < ws.len()
        invariant
            ws@ == old(ws)@,
            i <= ws@.len(),
            out@ == ws@.take(i as int).filter(other_than(id)),
        decreases ws@.len() - i,
    {
        let w = ws[i];
        proof {
            assert(ws@.take(i + 1) =~= ws@.take(i as int).push(w));
            ws@.take(i as int).lemma_filter_push(w, other_than(id));
        }
        if w != id {
            out.push(w);
        }
        i = i + 1;
    }
    assert(ws@.take(ws@.len() as int) =~= ws@);
    *ws = out;
}


/// Removes a clause from the watch lists of its literals.
fn unwatch_clause(f: &mut CnfFormula, id: ClauseID)
    requires
        old(f).wf(),
        id < old(f).clauses@.len(),
    ensures
        unwatched(old(f).variables.0@, final(f).variables.0@, old(f).clauses@[id as int].literals@, id),
        final(f).clauses == old(f).clauses,
        final(f).assignments == old(f).assignments,
        final(f).variable_count == old(f).variable_count,
        final(f).unset_vars == old(f).unset_vars,
        final(f).free_indices == old(f).free_indices,
        final(f).current_id == old(f).current_id,
        final(f).learned_clause_start == old(f).learned_clause_start,
{
    let ghost vars0 = f.variables.0@;
    let ghost lits = f.clauses@[id as int].literals@;
    assert(crate::cnf::clause::clause_wf(f.clauses@[id as int], f.variable_count as int));
    let n = f.clauses[id].literals.len();
    let mut j: usize = 0;
    while j < n
        invariant
            n == lits.len(),
            j <= n,
            lits == f.clauses@[id as int].literals@,
            id < f.clauses@.len(),
            crate::cnf::literals::lits_in_range(lits, f.variable_count as int),
            f.variables.0@.len() == f.variable_count,
            f.clauses == old(f).clauses,
            f.assignments == old(f).assignments,
            f.variable_count == old(f).variable_count,
            f.unset_vars == old(f).unset_vars,
            f.free_indices == old(f).free_indices,
            f.current_id == old(f).current_id,
            f.learned_clause_start == old(f).learned_clause_start,
            vars0 == old(f).variables.0@,
            unwatched(vars0, f.variables.0@, lits.take(j as int), id),
        decreases n - j,
    {
        let lit = f.clauses[id].literals.get(j);
        assert(lit == lits[j as int]);
        let v = lit_var(lit);
        let ghost before = f.variables.0@;
        let variable = f.variables.get_mut(v);
        if lit > 0 {
            retain_other(&mut variable.positive_watched_occurrences, id);
        } else {
            retain_other(&mut variable.negative_watched_occurrences, id);
        }
        proof {
            let t0 = lits.take(j as int);
            let t1 = lits.take(j + 1);
            assert(t1 =~= t0.push(lit));
            assert forall|l: i32| t1.contains(l) <==> (t0.contains(l) || l == lit) by {
                if t1.contains(l) && l != lit {
                    let k = choose|k: int| 0 <= k < t1.len() && t1[k] == l;
                    assert(t0[k] == l);
                }
                if t0.contains(l) {
                    let k = choose|k: int| 0 <= k < t0.len() && t0[k] == l;
                    assert(t1[k] == l);
                }
                if l == lit {
                    assert(t1[j as int] == l);
                }
            }
            assert forall|l: i32|
                lit_ok(l) && 1 <= var_of(l) <= vars0.len() implies #[trigger] watch_list(f.variables.0@, l as int)
                == if t1.contains(l) {
                watch_list(vars0, l as int).filter(other_than(id))
            } else {
                watch_list(vars0, l as int)
            } by {
                if l == lit {
                    lemma_filter_filter(watch_list(vars0, l as int), other_than(id), other_than(id));
                    assert((|w: ClauseID| other_than(id)(w) && other_than(id)(w)) =~= other_than(id));
                    assert(watch_list(before, l as int) == if t0.contains(l) {
                        watch_list(vars0, l as int).filter(other_than(id))
                    } else {
                        watch_list(vars0, l as int)
                    });
                } else {
                    assert(watch_list(before, l as int) == if t0.contains(l) {
                        watch_list(vars0, l as int).filter(other_than(id))
                    } else {
                        watch_list(vars0, l as int)
                    });
                }
            }
            assert forall|x: int| 0 <= x < vars0.len() implies (#[trigger] f.variables.0@[x]).positive_occurrences_count
                == vars0[x].positive_occurrences_count && f.variables.0@[x].negative_occurrences_count
                == vars0[x].negative_occurrences_count by {
                assert(before[x].positive_occurrences_count == vars0[x].positive_occurrences_count);
            }
        }
        j = j + 1;
    }
    assert(lits.take(n as int) =~= lits);
}

impl Cdcl {
    /// Clause deletion: when there are more learned clauses than `clauses_limit`, and more than
    /// that many of them may be deleted (see `deletable`), all but `clauses_limit` of those are
    /// deleted, those of the greatest literal block distance (which of equal ones is left open):
    /// they leave the watch lists and their IDs are freed; the freed IDs are then ordered by
    /// `free_key` and the unit queue is emptied. Nothing changes otherwise.
    pub fn delete_clauses(&mut self)
        requires
            old(self).cnf_formula.wf(),
            old(self).cnf_formula.clauses@.len() <= i32::MAX,
            forall|i: int|
                0 <= i < old(self).cnf_formula.free_indices@.len() ==> (old(self).cnf_formula.free_indices@[i] as i32)
                    != i32::MIN,
        ensures
            final(self).cnf_formula.wf(),
            learned_freed_set(*old(self)).finite(),
            deletable_set(*old(self)).finite(),
            !(old(self).clauses_limit < learned_freed_set(*old(self)).len() && old(self).clauses_limit
                < deletable_set(*old(self)).len()) ==> *final(self) == *old(self),
            old(self).clauses_limit < learned_freed_set(*old(self)).len() && old(self).clauses_limit
                < deletable_set(*old(self)).len() ==> exists|d: Set<usize>|
                {
                    &&& d.subset_of(deletable_set(*old(self)))
                    &&& d.finite()
                    &&& d.len() + old(self).clauses_limit == deletable_set(*old(self)).len()
                    &&& forall|x: usize, y: usize|
                        d.contains(x) && deletable_set(*old(self)).contains(y) && !d.contains(y)
                            ==> old(self).cnf_formula.clauses@[y as int].literal_block_distance
                            <= old(self).cnf_formula.clauses@[x as int].literal_block_distance
                    &&& deleted_as(*old(self), *final(self), d)
                },
    {
        let ghost c0 = *self;
        let ghost f0 = self.cnf_formula;
        proof {
            vstd::set_lib::range_set_properties::<usize>(f0.learned_clause_start, f0.clauses@.len() as usize);
            let range = <usize as vstd::set_lib::FiniteRange>::range_set(
                f0.learned_clause_start,
                f0.clauses@.len() as usize,
            );
            assert(learned_freed_set(c0).subset_of(range));
            vstd::set_lib::lemma_len_subset(learned_freed_set(c0), range);
            assert(deletable_set(c0).subset_of(learned_freed_set(c0)));
            vstd::set_lib::lemma_len_subset(deletable_set(c0), learned_freed_set(c0));
        }
        let learned_clauses = self.cnf_formula.get_learned_clauses();
        let ghost lids = learned_clauses@.map_values(|p: (ClauseID, &crate::cnf::clause::Clause)| p.0);
        proof {
            assert(lids.no_duplicates()) by {
                assert forall|a: int, b: int| 0 <= a < lids.len() && 0 <= b < lids.len() && a != b implies lids[a]
                    != lids[b] by {
                    if a < b {
                        assert(learned_clauses@[a].0 < learned_clauses@[b].0);
                    } else {
                        assert(learned_clauses@[b].0 < learned_clauses@[a].0);
                    }
                }
            }
            assert(lids.to_set() =~= learned_freed_set(c0)) by {
                assert forall|x: usize| lids.to_set().contains(x) <==> learned_freed_set(c0).contains(x) by {
                    if lids.contains(x) {
                        let k = choose|k: int| 0 <= k < lids.len() && lids[k] == x;
                        assert(learned_clauses@[k].0 == x);
                    }
                    if learned_freed_set(c0).contains(x) {
                        let k = choose|k: int| 0 <= k < learned_clauses@.len() && (#[trigger] learned_clauses@[k]).0 == x;
                        assert(lids[k] == x);
                    }
                }
            }
            lids.unique_seq_to_set();
        }
        if self.clauses_limit >= learned_clauses.len() {
            return;
        }
        let locked_clauses = self.implication_graph.locked_clauses(&self.cnf_formula);
        let mut filtered: Vec<ClauseID> = Vec::new();
        let mut lbds: Vec<usize> = Vec::new();
        let mut k: usize = 0;
        while k < learned_clauses.len()
            invariant
                c0 == *self,
                k <= learned_clauses@.len(),
                lids == learned_clauses@.map_values(|p: (ClauseID, &crate::cnf::clause::Clause)| p.0),
                lids.no_duplicates(),
                lids.to_set() == learned_freed_set(c0),
                forall|kk: int|
                    0 <= kk < learned_clauses@.len() ==> *(#[trigger] learned_clauses@[kk]).1
                        == c0.cnf_formula.clauses@[learned_clauses@[kk].0 as int],
                forall|c: ClauseID| locked_clauses@.contains(c) <==> is_locked(c0.implication_graph.trail(), c),
                filtered@ == lids.take(k as int).filter(|id: ClauseID| deletable(c0, id)),
                lbds@.len() == filtered@.len(),
                forall|i: int|
                    0 <= i < filtered@.len() ==> #[trigger] lbds@[i] == c0.cnf_formula.clauses@[filtered@[i] as int].literal_block_distance,
            decreases learned_clauses@.len() - k,
        {
            let id = learned_clauses[k].0;
            let clause = learned_clauses[k].1;
            assert(lids[k as int] == id);
            let mut locked = false;
            let mut q: usize = 0;
            while q < locked_clauses.len()
                invariant
                    q <= locked_clauses@.len(),
                    locked == exists|w: int| 0 <= w < q && locked_clauses@[w] == id,
                decreases locked_clauses@.len() - q,
            {
                if locked_clauses[q] == id {
                    locked = true;
                }
                q = q + 1;
            }
            let mut queued = false;
            let mut q: usize = 0;
            while q < self.unit_queue.len()
                invariant
                    c0 == *self,
                    q <= self.unit_queue@.len(),
                    queued == exists|w: int| 0 <= w < q && self.unit_queue@[w] == id,
                decreases self.unit_queue@.len() - q,
            {
                if self.unit_queue[q] == id {
                    queued = true;
                }
                q = q + 1;
            }
            proof {
                assert(lids.to_set().contains(id));
                assert(locked == locked_clauses@.contains(id));
                assert(queued == self.unit_queue@.contains(id));
                assert(lids.take(k + 1) =~= lids.take(k as int).push(id));
                lids.take(k as int).lemma_filter_push(id, |id: ClauseID| deletable(c0, id));
            }
            if !locked && !queued && clause.literal_block_distance > 2 {
                filtered.push(id);
                lbds.push(clause.literal_block_distance);
            }
            k = k + 1;
        }
        assert(lids.take(lids.len() as int) =~= lids);
        proof {
            lemma_filter_no_dups(lids, |id: ClauseID| deletable(c0, id));
            lids.filter_lemma(|id: ClauseID| deletable(c0, id));
            assert(filtered@.to_set() =~= deletable_set(c0)) by {
                assert forall|x: usize| filtered@.to_set().contains(x) <==> deletable_set(c0).contains(x) by {
                    if deletable_set(c0).contains(x) {
                        assert(lids.to_set().contains(x));
                        let w = choose|w: int| 0 <= w < lids.len() && lids[w] == x;
                        assert(filtered@.contains(lids[w]));
                    }
                    if filtered@.contains(x) {
                        let w = choose|w: int| 0 <= w < filtered@.len() && filtered@[w] == x;
                        assert(deletable(c0, filtered@[w]));
                    }
                }
            }
            filtered@.unique_seq_to_set();
        }
        if filtered.len() <= self.clauses_limit {
            return;
        }
        let n = filtered.len();
        let count = n - self.clauses_limit;
        let mut deleted: Vec<bool> = vec![false; n];
        let ghost mut ds: Set<int> = Set::empty();
        let ghost mut d: Set<usize> = Set::empty();
        let mut t: usize = 0;
        while t < count
            invariant
                c0 == *self,
                deleted@.len() == n,
                n == filtered@.len(),
                lbds@.len() == n,
                count == n - c0.clauses_limit,
                t <= count,
                ds.finite(),
                ds.len() == t,
                forall|i: int| 0 <= i < n ==> (deleted@[i] <==> ds.contains(i)),
                forall|i: int| ds.contains(i) ==> 0 <= i < n,
                forall|i: int, j: int|
                    0 <= i < n && 0 <= j < n && deleted@[i] && !deleted@[j] ==> lbds@[j] <= lbds@[i],
                d.finite(),
                d.len() == t,
                forall|i: int| 0 <= i < n ==> (deleted@[i] <==> d.contains(#[trigger] filtered@[i])),
                forall|x: usize| d.contains(x) ==> filtered@.contains(x),
                filtered@.no_duplicates(),
            decreases count - t,
        {
            let mut m: usize = n;
            let mut i: usize = 0;
            while i < n
                invariant
                    deleted@.len() == n,
                    lbds@.len() == n,
                    i <= n,
                    m == n || (m < i && !deleted@[m as int]),
                    forall|j: int| 0 <= j < i && !deleted@[j] ==> m < n && lbds@[j] <= lbds@[m as int],
                    m == n ==> forall|j: int| 0 <= j < i ==> deleted@[j],
                decreases n - i,
            {
                if !deleted[i] && (m == n || lbds[i] > lbds[m]) {
                    m = i;
                }
                i = i + 1;
            }
            proof {
                if m == n {
                    let r = <int as vstd::set_lib::FiniteRange>::range_set(0, n as int);
                    vstd::set_lib::range_set_properties::<int>(0, n as int);
                    assert(r.subset_of(ds));
                    vstd::set_lib::lemma_len_subset(r, ds);
                }
            }
            let ghost del0 = deleted@;
            deleted[m] = true;
            proof {
                assert(!ds.contains(m as int));
                assert(!d.contains(filtered@[m as int])) by {
                    if d.contains(filtered@[m as int]) {
                        assert(filtered@.contains(filtered@[m as int]));
                    }
                }
                ds = ds.insert(m as int);
                d = d.insert(filtered@[m as int]);
                assert forall|i: int| 0 <= i < n implies (deleted@[i] <==> d.contains(#[trigger] filtered@[i])) by {
                    if i != m {
                        assert(filtered@[i] != filtered@[m as int]);
                        assert(deleted@[i] == del0[i]);
                    }
                }
                assert forall|x: usize| d.contains(x) implies filtered@.contains(x) by {
                    if x == filtered@[m as int] {
                        assert(filtered@[m as int] == x);
                    }
                }
            }
            t = t + 1;
        }
        let ghost vars0 = self.cnf_formula.variables.0@;
        let ghost free0 = self.cnf_formula.free_indices@;
        let ghost mut done: Set<usize> = Set::empty();
        let ghost mut pushed: Seq<usize> = Seq::empty();
        proof {
            assert forall|l: i32|
                lit_ok(l) && 1 <= var_of(l) <= vars0.len() implies #[trigger] watch_list(
                self.cnf_formula.variables.0@,
                l as int,
            ) == watch_list(vars0, l as int).filter(kept_in_list(done, f0, l)) by {
                lemma_filter_all(watch_list(vars0, l as int), kept_in_list(done, f0, l));
            }
            assert(self.cnf_formula.free_indices@ =~= free0 + pushed);
        }
        let mut i: usize = 0;
        while i < n
            invariant
                i <= n,
                n == filtered@.len(),
                deleted@.len() == n,
                filtered@.no_duplicates(),
                filtered@.to_set() == deletable_set(c0),
                f0 == c0.cnf_formula,
                f0.wf(),
                vars0 == f0.variables.0@,
                free0 == f0.free_indices@,
                self.cnf_formula.wf(),
                self.cnf_formula.clauses == f0.clauses,
                self.cnf_formula.assignments == f0.assignments,
                self.cnf_formula.variable_count == f0.variable_count,
                self.cnf_formula.unset_vars == f0.unset_vars,
                self.cnf_formula.current_id == f0.current_id,
                self.cnf_formula.learned_clause_start == f0.learned_clause_start,
                self.cnf_formula.variables.0@.len() == vars0.len(),
                self.implication_graph == c0.implication_graph,
                self.status == c0.status,
                self.stats == c0.stats,
                self.lit_prio == c0.lit_prio,
                self.lit_counter == c0.lit_counter,
                self.clauses_limit == c0.clauses_limit,
                self.unit_queue == c0.unit_queue,
                forall|l: i32|
                    #![trigger watch_list(self.cnf_formula.variables.0@, l as int)]
                    lit_ok(l) && 1 <= var_of(l) <= vars0.len() ==> watch_list(self.cnf_formula.variables.0@, l as int)
                        == watch_list(vars0, l as int).filter(kept_in_list(done, f0, l)),
                forall|v: int|
                    0 <= v < vars0.len() ==> (#[trigger] self.cnf_formula.variables.0@[v]).positive_occurrences_count
                        == vars0[v].positive_occurrences_count
                        && self.cnf_formula.variables.0@[v].negative_occurrences_count
                        == vars0[v].negative_occurrences_count,
                self.cnf_formula.free_indices@ == free0 + pushed,
                pushed.no_duplicates(),
                forall|x: usize| pushed.contains(x) <==> done.contains(x),
                forall|x: usize| done.contains(x) <==> exists|j: int| 0 <= j < i && deleted@[j] && filtered@[j] == x,
            decreases n - i,
        {
            if deleted[i] {
                let id = filtered[i];
                proof {
                    assert(filtered@.to_set().contains(id));
                    assert(deletable(c0, id));
                }
                let ghost vars1 = self.cnf_formula.variables.0@;
                unwatch_clause(&mut self.cnf_formula, id);
                self.cnf_formula.delete_clause(id);
                proof {
                    let done1 = done.insert(id);
                    let lits = f0.clauses@[id as int].literals@;
                    assert forall|l: i32|
                        lit_ok(l) && 1 <= var_of(l) <= vars0.len() implies #[trigger] watch_list(
                        self.cnf_formula.variables.0@,
                        l as int,
                    ) == watch_list(vars0, l as int).filter(kept_in_list(done1, f0, l)) by {
                        let w0 = watch_list(vars0, l as int);
                        if lits.contains(l) {
                            lemma_filter_filter(w0, kept_in_list(done, f0, l), other_than(id));
                            assert((|w: ClauseID| kept_in_list(done, f0, l)(w) && other_than(id)(w)) =~= kept_in_list(
                                done1,
                                f0,
                                l,
                            ));
                        } else {
                            assert(kept_in_list(done, f0, l) =~= kept_in_list(done1, f0, l));
                        }
                    }
                    assert(!pushed.contains(id)) by {
                        if done.contains(id) {
                            let j = choose|j: int| 0 <= j < i && deleted@[j] && filtered@[j] == id;
                            assert(filtered@[j] == filtered@[i as int]);
                        }
                    }
                    let p1 = pushed.push(id);
                    assert forall|a: int, b: int| 0 <= a < p1.len() && 0 <= b < p1.len() && a != b implies p1[a] != p1[b] by {
                        if a < pushed.len() && b < pushed.len() {
                        } else if a < pushed.len() {
                            assert(pushed.contains(p1[a]));
                        } else if b < pushed.len() {
                            assert(pushed.contains(p1[b]));
                        }
                    }
                    assert forall|x: usize| p1.contains(x) <==> done1.contains(x) by {
                        if p1.contains(x) && x != id {
                            let w = choose|w: int| 0 <= w < p1.len() && p1[w] == x;
                            assert(pushed[w] == x);
                        }
                        if pushed.contains(x) {
                            let w = choose|w: int| 0 <= w < pushed.len() && pushed[w] == x;
                            assert(p1[w] == x);
                        }
                        if x == id {
                            assert(p1[pushed.len() as int] == x);
                        }
                    }
                    assert(self.cnf_formula.free_indices@ =~= free0 + p1);
                    assert forall|x: usize| done1.contains(x) <==> exists|j: int|
                        0 <= j < i + 1 && deleted@[j] && filtered@[j] == x by {
                        if x == id {
                            assert(deleted@[i as int] && filtered@[i as int] == x);
                        }
                        if exists|j: int| 0 <= j < i + 1 && deleted@[j] && filtered@[j] == x {
                            let j = choose|j: int| 0 <= j < i + 1 && deleted@[j] && filtered@[j] == x;
                            if j < i {
                                assert(done.contains(x));
                            }
                        }
                    }
                    assert(watch_lists_ok(self.cnf_formula.variables.0@, self.cnf_formula.clauses@)) by {
                        assert forall|l: i32|
                            lit_ok(l) && 1 <= var_of(l) <= self.cnf_formula.variables.0@.len() implies list_ok(
                            #[trigger] watch_list(self.cnf_formula.variables.0@, l as int),
                            l as int,
                            self.cnf_formula.clauses@,
                        ) by {
                            let w0 = watch_list(vars0, l as int);
                            assert(list_ok(w0, l as int, f0.clauses@));
                            lemma_filter_no_dups(w0, kept_in_list(done1, f0, l));
                            let w1 = w0.filter(kept_in_list(done1, f0, l));
                            assert forall|j: int| 0 <= j < w1.len() implies (#[trigger] w1[j]) < self.cnf_formula.clauses@.len()
                                && crate::cnf::clause::watches(self.cnf_formula.clauses@[w1[j] as int], l as int) by {
                                assert(w1.contains(w1[j]));
                                assert(w0.contains(w1[j]));
                                let q = choose|q: int| 0 <= q < w0.len() && w0[q] == w1[j];
                            }
                        }
                    }
                    done = done1;
                    pushed = p1;
                }
            } else {
                proof {
                    assert forall|x: usize| done.contains(x) <==> exists|j: int|
                        0 <= j < i + 1 && deleted@[j] && filtered@[j] == x by {
                        if exists|j: int| 0 <= j < i + 1 && deleted@[j] && filtered@[j] == x {
                            let j = choose|j: int| 0 <= j < i + 1 && deleted@[j] && filtered@[j] == x;
                            assert(j != i);
                        }
                    }
                }
            }
            i = i + 1;
        }
        proof {
            assert(done =~= d) by {
                assert forall|x: usize| done.contains(x) <==> d.contains(x) by {
                    if d.contains(x) {
                        assert(filtered@.contains(x));
                        let j = choose|j: int| 0 <= j < n && filtered@[j] == x;
                        assert(deleted@[j]);
                    }
                }
            }
        }
        let mut old_free: Vec<usize> = Vec::new();
        std::mem::swap(&mut old_free, &mut self.cnf_formula.free_indices);
        proof {
            assert forall|q: int| 0 <= q < old_free@.len() implies (old_free@[q] as i32) != i32::MIN by {
                if q >= free0.len() {
                    let x = pushed[q - free0.len()];
                    assert(pushed.contains(x));
                    assert(done.contains(x));
                    assert(filtered@.to_set().contains(x));
                    assert(deletable(c0, x));
                }
            }
        }
        let sorted = sort_by_free_key(old_free);
        self.cnf_formula.free_indices = sorted;
        self.unit_queue.clear();
        proof {
            vstd::seq_lib::lemma_multiset_commutative(free0, pushed);
            pushed.lemma_multiset_has_no_duplicates();
            assert forall|x: usize| #[trigger] self.cnf_formula.free_indices@.to_multiset().count(x)
                == free0.to_multiset().count(x) + if d.contains(x) {
                1nat
            } else {
                0nat
            } by {
                broadcast use vstd::multiset::group_multiset_axioms;
                broadcast use vstd::seq_lib::group_to_multiset_ensures;
                if !d.contains(x) {
                    assert(!pushed.contains(x));
                    assert(pushed.to_multiset().count(x) == 0);
                } else {
                    assert(pushed.contains(x));
                    assert(pushed.to_multiset().contains(x));
                }
            }
            assert forall|l: i32|
                lit_ok(l) && 1 <= var_of(l) <= vars0.len() implies #[trigger] watch_list(
                self.cnf_formula.variables.0@,
                l as int,
            ) == watch_list(vars0, l as int).filter(|w: ClauseID| !d.contains(w)) by {
                let w0 = watch_list(vars0, l as int);
                assert(list_ok(w0, l as int, f0.clauses@));
                assert forall|j: int| 0 <= j < w0.len() implies kept_in_list(d, f0, l)(w0[j]) == (|w: ClauseID|
                    !d.contains(w))(w0[j]) by {
                    let c = f0.clauses@[w0[j] as int];
                    assert(crate::cnf::clause::clause_wf(c, f0.variable_count as int));
                }
                lemma_filter_agree(w0, kept_in_list(d, f0, l), |w: ClauseID| !d.contains(w));
            }
            assert(d.subset_of(deletable_set(c0))) by {
                assert forall|x: usize| d.contains(x) implies deletable_set(c0).contains(x) by {
                    assert(filtered@.contains(x));
                    assert(filtered@.to_set().contains(x));
                }
            }
            assert forall|x: usize, y: usize|
                d.contains(x) && deletable_set(c0).contains(y) && !d.contains(y) implies c0.cnf_formula.clauses@[y as int].literal_block_distance
                <= c0.cnf_formula.clauses@[x as int].literal_block_distance by {
                let a = choose|a: int| 0 <= a < n && filtered@[a] == x;
                assert(filtered@.to_set().contains(y));
                let b = choose|b: int| 0 <= b < n && filtered@[b] == y;
                assert(deleted@[a]);
                assert(!deleted@[b]);
            }
            assert(deleted_as(c0, *self, d));
        }
    }
}
} // verus!
