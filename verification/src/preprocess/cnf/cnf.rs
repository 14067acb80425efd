use crate::cnf::literals::{lit_var, var_of};
use crate::cdcl::cdcl::saturating_sum;
use crate::cnf::cnf_formula::{
    complete_watches, lemma_complete_watches_push, lemma_same_var, lemma_watch_lists_push, non_tautological,
    watch_lists_ok, watch_shape, watches_sound, CnfFormula,
};
use crate::cnf::literals::{Literals, Polarity};
use crate::cnf::variable::{watch_list, Variables};
use crate::parser::{as_ints, count_in, is_tautological, is_tautology, lemma_literal_count_push, literal_count};
use crate::preprocess::cnf::clause::{Clause, ClauseID};
use crate::preprocess::cnf::lit::Lit;
use crate::preprocess::cnf::lit::hash1_spec;
use crate::preprocess::cnf::misc::{remove_element, without_first};
use crate::preprocess::cnf::var::{add_once, clause_removed, clause_removed_times, var_model, Var, VarId};
use rustc_hash::FxHashMap;
use std::collections::VecDeque;
use vstd::prelude::*;

verus! {

pub type Vars = FxHashMap<VarId, Var>;

pub type Clauses = FxHashMap<ClauseID, Clause>;

/// `HashMap::get` on a map with the Fx hasher and `u32` keys: the value of the key, if any.
#[verifier::external_body]
pub(crate) fn fx_get<V>(m: &FxHashMap<u32, V>, k: u32) -> (r: Option<&V>)
    ensures
        match r {
            Some(v) => m@.contains_key(k) && *v == m@[k],
            None => !m@.contains_key(k),
        },
{
    m.get(&k)
}

/// `HashMap::get_mut` on a map with the Fx hasher and `u32` keys, for a key that the map holds:
/// the value, which the map holds afterwards as the caller leaves it.
#[verifier::external_body]
pub(crate) fn fx_get_mut<V>(m: &mut FxHashMap<u32, V>, k: u32) -> (r: &mut V)
    requires
        old(m)@.contains_key(k),
    ensures
        *r == old(m)@[k],
        final(m)@ == old(m)@.insert(k, *final(r)),
{
    m.get_mut(&k).unwrap()
}

/// `HashMap::insert` on a map with the Fx hasher and `u32` keys.
#[verifier::external_body]
pub(crate) fn fx_insert<V>(m: &mut FxHashMap<u32, V>, k: u32, v: V)
    ensures
        final(m)@ == old(m)@.insert(k, v),
{
    m.insert(k, v);
}

/// `HashMap::keys` on a map with the Fx hasher and `u32` keys, collected: each key once, in
/// the order in which the map is walked.
#[verifier::external_body]
pub(crate) fn fx_keys<V>(m: &FxHashMap<u32, V>) -> (r: Vec<u32>)
    ensures
        r@.no_duplicates(),
        r@.to_set() == m@.dom(),
{
    m.keys().copied().collect()
}

/// `HashMap::len` on a map with the Fx hasher and `u32` keys.
#[verifier::external_body]
pub(crate) fn fx_len<V>(m: &FxHashMap<u32, V>) -> (r: usize)
    ensures
        r == m@.dom().len(),
{
    m.len()
}

/// The literal names a variable of the map: it is neither 0 nor `i32::MIN`, and its variable is
/// a key.
pub open spec fn lit_in(l: Lit, vars: Map<VarId, Var>) -> bool {
    l.0 != 0 && l.0 != i32::MIN && vars.contains_key(var_of(l.0) as u32)
}

/// The clause IDs of a variable's occurrences are clauses of the map.
pub open spec fn occ_in(x: Var, clauses: Map<ClauseID, Clause>) -> bool {
    &&& forall|j: int| 0 <= j < x.pos_occ@.len() ==> clauses.contains_key(#[trigger] x.pos_occ@[j])
    &&& forall|j: int| 0 <= j < x.neg_occ@.len() ==> clauses.contains_key(#[trigger] x.neg_occ@[j])
}

/// The literals of a clause name variables of the map.
pub open spec fn lits_in(c: Clause, vars: Map<VarId, Var>) -> bool {
    forall|j: int| 0 <= j < c.lits@.len() ==> lit_in(#[trigger] c.lits@[j], vars)
}

/// Some literal of the sequence is the number `x`.
pub open spec fn has_lit(lits: Seq<Lit>, x: int) -> bool {
    exists|j: int| 0 <= j < lits.len() && lits[j].0 == x
}

/// How many literals of the sequence speak of the variable `v`.
pub open spec fn count_var(lits: Seq<Lit>, v: VarId) -> nat {
    lits.filter(|l: Lit| var_of(l.0) == v as int).len()
}

/// The queue of units after `add_unit`: the pair joins unless a unit of the same literal is
/// queued already.
pub open spec fn unit_added(units: Seq<(ClauseID, Lit)>, id: ClauseID, lit: Lit) -> Seq<(ClauseID, Lit)> {
    if exists|j: int| 0 <= j < units.len() && units[j].1 == lit {
        units
    } else {
        units.push((id, lit))
    }
}

/// Adding an element twice adds it once.
proof fn lemma_add_once_twice(s: Seq<ClauseID>, e: ClauseID)
    ensures
        add_once(add_once(s, e), e) == add_once(s, e),
        add_once(s, e).contains(e),
{
    if !s.contains(e) {
        assert(s.push(e)[s.len() as int] == e);
    }
}

/// Removing from a sequence keeps only elements it had.
proof fn lemma_without_first_subset<T: PartialEq>(s: Seq<T>, e: T, x: T)
    requires
        without_first(s, e).contains(x),
    ensures
        s.contains(x),
{
    crate::preprocess::cnf::misc::lemma_first_position(s, e);
    if let Some(i) = crate::preprocess::cnf::misc::first_position(s, e) {
        let t = without_first(s, e);
        let j = choose|j: int| 0 <= j < t.len() && t[j] == x;
        if j == i {
            assert(s[s.len() - 1] == x);
        } else {
            assert(s[j] == x);
        }
    }
}

/// Removing clause IDs keeps only IDs that were there.
proof fn lemma_removed_times_subset(m: (Seq<ClauseID>, Seq<ClauseID>, bool), id: ClauseID, k: nat, x: ClauseID)
    ensures
        clause_removed_times(m, id, k).0.contains(x) ==> m.0.contains(x),
        clause_removed_times(m, id, k).1.contains(x) ==> m.1.contains(x),
    decreases k,
{
    if k > 0 {
        let m1 = clause_removed_times(m, id, (k - 1) as nat);
        lemma_removed_times_subset(m, id, (k - 1) as nat, x);
        if clause_removed(m1, id).0.contains(x) {
            lemma_without_first_subset(m1.0, id, x);
        }
        if clause_removed(m1, id).1.contains(x) {
            lemma_without_first_subset(m1.1, id, x);
        }
    }
}

/// A copy of a list of clause IDs.
pub(crate) fn copy_ids(v: &Vec<ClauseID>) -> (r: Vec<ClauseID>)
    ensures
        r@ == v@,
{
    let mut r: Vec<ClauseID> = Vec::new();
    let mut i: usize = 0;
    while i < v.len()
        invariant
            i <= v@.len(),
            r@ == v@.take(i as int),
        decreases v@.len() - i,
    {
        r.push(v[i]);
        proof {
            assert(v@.take(i + 1) =~= v@.take(i as int).push(v@[i as int]));
        }
        i = i + 1;
    }
    assert(v@.take(v@.len() as int) =~= v@);
    r
}

/// The distinct literals of a clause, each where it first occurs.
pub open spec fn distinct_lits(s: Seq<int>) -> Seq<int>
    decreases s.len(),
{
    if s.len() == 0 {
        Seq::empty()
    } else {
        let d = distinct_lits(s.drop_last());
        if d.contains(s.last()) {
            d
        } else {
            d.push(s.last())
        }
    }
}

/// Every literal kept by `distinct_lits` is a literal of the clause; so a clause that is no
/// tautology keeps none.
proof fn lemma_distinct_lits_no_tautology(s: Seq<int>)
    ensures
        forall|i: int| 0 <= i < distinct_lits(s).len() ==> s.contains(#[trigger] distinct_lits(s)[i]),
        !is_tautology(s) ==> !is_tautology(distinct_lits(s)),
    decreases s.len(),
{
    let d = distinct_lits(s);
    if s.len() > 0 {
        let s0 = s.drop_last();
        lemma_distinct_lits_no_tautology(s0);
        assert forall|i: int| 0 <= i < d.len() implies s.contains(#[trigger] d[i]) by {
            let d0 = distinct_lits(s0);
            if i < d0.len() {
                assert(d[i] == d0[i]);
                let k = choose|k: int| 0 <= k < s0.len() && s0[k] == d0[i];
                assert(s[k] == s0[k]);
            } else {
                assert(d[i] == s.last());
                assert(s[s.len() - 1] == s.last());
            }
        }
    }
    if !is_tautology(s) && is_tautology(d) {
        let (a, b) = choose|a: int, b: int| 0 <= a < d.len() && 0 <= b < d.len() && d[a] == -d[b];
        assert(s.contains(d[a]) && s.contains(d[b]));
        let ka = choose|k: int| 0 <= k < s.len() && s[k] == d[a];
        let kb = choose|k: int| 0 <= k < s.len() && s[k] == d[b];
        assert(s[ka] == -s[kb]);
    }
}

/// The IDs `i + 1` of the clauses `i` among the first `k` that are not tautologies and hold the
/// literal `x`, in order.
pub open spec fn occurrence_ids(pre: Seq<Seq<int>>, x: int, k: int) -> Seq<ClauseID>
    decreases k,
{
    if k <= 0 {
        Seq::empty()
    } else {
        let r = occurrence_ids(pre, x, k - 1);
        if !is_tautology(pre[k - 1]) && pre[k - 1].contains(x) {
            r.push(k as ClauseID)
        } else {
            r
        }
    }
}

/// The numbers of literals.
pub open spec fn lit_numbers(lits: Seq<Lit>) -> Seq<int> {
    lits.map_values(|l: Lit| l.0 as int)
}

/// The IDs of the occurrences name clauses among the first `k` that are not tautologies.
proof fn lemma_occurrence_ids(pre: Seq<Seq<int>>, x: int, k: int)
    requires
        0 <= k <= pre.len(),
        k < u32::MAX,
    ensures
        forall|j: int|
            0 <= j < occurrence_ids(pre, x, k).len() ==> 1 <= #[trigger] occurrence_ids(pre, x, k)[j] <= k
                && !is_tautology(pre[occurrence_ids(pre, x, k)[j] - 1]),
    decreases k,
{
    if k > 0 {
        lemma_occurrence_ids(pre, x, k - 1);
        let r = occurrence_ids(pre, x, k - 1);
        assert forall|j: int|
            0 <= j < occurrence_ids(pre, x, k).len() implies 1 <= #[trigger] occurrence_ids(pre, x, k)[j] <= k
                && !is_tautology(pre[occurrence_ids(pre, x, k)[j] - 1]) by {
            if j < r.len() {
                assert(occurrence_ids(pre, x, k)[j] == r[j]);
            }
        }
    }
}

/// The literals of the clauses of a formula, as sequences of integers.
pub open spec fn formula_lits(cs: Seq<crate::cnf::clause::Clause>) -> Seq<Seq<int>> {
    cs.map_values(|c: crate::cnf::clause::Clause| as_ints(c.literals@))
}

/// A formula of the preprocessor: clauses and variables by their IDs, the queue of unit
/// clauses with their literal, and the greatest clause ID given out so far.
#[derive(Debug, PartialEq, Clone)]
pub struct CNF {
    pub clauses: Clauses,
    pub vars: Vars,
    pub units: VecDeque<(ClauseID, Lit)>,
    pub max_clause_id: ClauseID,
}

/// What `remove_lit` does: the first occurrence of the literal leaves the clause (the last
/// literal takes its place) and its bit leaves the signature; the first occurrence of the
/// clause leaves the literal's list of its variable; a clause of one literal left is queued as
/// a unit; nothing else changes.
pub open spec fn lit_removed(c0: CNF, c1: CNF, clause_id: ClauseID, lit: Lit) -> bool {
    let v = var_of(lit.0) as u32;
    &&& c1.max_clause_id == c0.max_clause_id
    &&& c1.clauses@.dom() == c0.clauses@.dom()
    &&& forall|id: ClauseID|
        #[trigger] c0.clauses@.contains_key(id) && id != clause_id ==> c1.clauses@[id] == c0.clauses@[id]
    &&& c1.clauses@[clause_id].lits@ == without_first(c0.clauses@[clause_id].lits@, lit)
    &&& c1.clauses@[clause_id].sig == c0.clauses@[clause_id].sig & !(1u128 << (hash1_spec(lit) as u32))
    &&& c1.clauses@[clause_id].active == c0.clauses@[clause_id].active
    &&& c1.vars@.dom() == c0.vars@.dom()
    &&& forall|x: VarId| #[trigger] c0.vars@.contains_key(x) && x != v ==> c1.vars@[x] == c0.vars@[x]
    &&& c1.vars@[v].pos_occ@ == if lit.0 > 0 {
        without_first(c0.vars@[v].pos_occ@, clause_id)
    } else {
        c0.vars@[v].pos_occ@
    }
    &&& c1.vars@[v].neg_occ@ == if lit.0 < 0 {
        without_first(c0.vars@[v].neg_occ@, clause_id)
    } else {
        c0.vars@[v].neg_occ@
    }
    &&& c1.vars@[v].active == c0.vars@[v].active
    &&& c1.units@ == if c1.clauses@[clause_id].lits@.len() == 1 {
        unit_added(c0.units@, clause_id, c1.clauses@[clause_id].lits@[0])
    } else {
        c0.units@
    }
}

/// The clauses that the variable of `lit` lists under the literal's sign.
pub open spec fn listed_under(vars: Map<VarId, Var>, lit: Lit) -> Seq<ClauseID> {
    if lit.0 > 0 {
        vars[var_of(lit.0) as u32].pos_occ@
    } else {
        vars[var_of(lit.0) as u32].neg_occ@
    }
}

/// Each clause other than `cid` that is listed under `lit` is taken out and recorded in `r`.
pub open spec fn unit_done(
    vars: Map<VarId, Var>,
    clauses: Map<ClauseID, Clause>,
    r: Seq<ClauseID>,
    cid: ClauseID,
    lit: Lit,
) -> bool {
    forall|j: int|
        0 <= j < listed_under(vars, lit).len() && #[trigger] listed_under(vars, lit)[j] != cid
            ==> !clauses[listed_under(vars, lit)[j]].active && r.contains(listed_under(vars, lit)[j])
}

/// No clause of `c0` is longer in `c1`.
pub open spec fn no_longer(c0: CNF, c1: CNF) -> bool {
    forall|x: ClauseID|
        #[trigger] c0.clauses@.contains_key(x) ==> c1.clauses@.contains_key(x) && c1.clauses@[x].lits@.len()
            <= c0.clauses@[x].lits@.len()
}

/// Some clause of `c0` is shorter in `c1`.
pub open spec fn shortened(c0: CNF, c1: CNF) -> bool {
    exists|x: ClauseID|
        #[trigger] c0.clauses@.contains_key(x) && c1.clauses@.contains_key(x) && c1.clauses@[x].lits@.len()
            < c0.clauses@[x].lits@.len()
}

/// Removing the first occurrence of a literal shortens a clause that holds it, and never
/// lengthens one.
pub proof fn lemma_without_first_len(s: Seq<Lit>, e: Lit)
    ensures
        without_first(s, e).len() <= s.len(),
        (exists|k: int| 0 <= k < s.len() && s[k] == e) ==> without_first(s, e).len() < s.len(),
{
    crate::preprocess::cnf::misc::lemma_first_position(s, e);
    if exists|k: int| 0 <= k < s.len() && s[k] == e {
        let k = choose|k: int| 0 <= k < s.len() && s[k] == e;
        assert(vstd::std_specs::cmp::PartialEqSpec::eq_spec(&s[k], &e));
    }
}

/// Removing a literal from a clause lengthens no clause.
pub proof fn lemma_removal_no_longer(c0: CNF, c1: CNF, rc: ClauseID, rl: Lit)
    requires
        lit_removed(c0, c1, rc, rl),
        c0.clauses@.contains_key(rc),
    ensures
        no_longer(c0, c1),
{
    lemma_without_first_len(c0.clauses@[rc].lits@, rl);
}

/// Every clause of `c0` that is taken out is still there, and still out, in `c1`.
pub open spec fn keeps_out(c0: CNF, c1: CNF) -> bool {
    forall|x: ClauseID|
        #[trigger] c0.clauses@.contains_key(x) && !c0.clauses@[x].active ==> c1.clauses@.contains_key(x)
            && !c1.clauses@[x].active
}

/// From `c0` to `c1` the occurrence lists only lose entries and the clauses taken out stay out.
pub open spec fn lists_shrink(c0: CNF, c1: CNF) -> bool {
    &&& c1.vars@.dom() == c0.vars@.dom()
    &&& c1.clauses@.dom() == c0.clauses@.dom()
    &&& forall|v: VarId, x: ClauseID|
        c0.vars@.contains_key(v) && #[trigger] c1.vars@[v].pos_occ@.contains(x) ==> c0.vars@[v].pos_occ@.contains(x)
    &&& forall|v: VarId, x: ClauseID|
        c0.vars@.contains_key(v) && #[trigger] c1.vars@[v].neg_occ@.contains(x) ==> c0.vars@[v].neg_occ@.contains(x)
    &&& forall|x: ClauseID|
        c0.clauses@.contains_key(x) && !c0.clauses@[x].active ==> !(#[trigger] c1.clauses@[x]).active
}

/// A unit whose clauses were taken out stays so while the lists shrink and the record grows.
proof fn lemma_done_kept(c0: CNF, c1: CNF, r0: Seq<ClauseID>, r1: Seq<ClauseID>, cid: ClauseID, lit: Lit)
    requires
        c0.wf(),
        lists_shrink(c0, c1),
        unit_done(c0.vars@, c0.clauses@, r0, cid, lit),
        lit_in(lit, c0.vars@),
        forall|x: ClauseID| r0.contains(x) ==> r1.contains(x),
    ensures
        unit_done(c1.vars@, c1.clauses@, r1, cid, lit),
{
    let v = var_of(lit.0) as u32;
    assert forall|j: int|
        0 <= j < listed_under(c1.vars@, lit).len() && #[trigger] listed_under(c1.vars@, lit)[j] != cid implies !c1.clauses@[listed_under(c1.vars@, lit)[j]].active && r1.contains(listed_under(c1.vars@, lit)[j]) by {
        let x = listed_under(c1.vars@, lit)[j];
        assert(listed_under(c1.vars@, lit).contains(x));
        if lit.0 > 0 {
            assert(c1.vars@[v].pos_occ@.contains(x));
        } else {
            assert(c1.vars@[v].neg_occ@.contains(x));
        }
        assert(listed_under(c0.vars@, lit).contains(x));
        let j0 = choose|j0: int| 0 <= j0 < listed_under(c0.vars@, lit).len() && listed_under(c0.vars@, lit)[j0] == x;
        assert(occ_in(c0.vars@[v], c0.clauses@));
        if lit.0 > 0 {
            assert(c0.clauses@.contains_key(c0.vars@[v].pos_occ@[j0]));
        } else {
            assert(c0.clauses@.contains_key(c0.vars@[v].neg_occ@[j0]));
        }
        assert(!c0.clauses@[x].active);
    }
}

/// Removing a literal from a clause shrinks the lists.
proof fn lemma_removal_shrinks(c0: CNF, c1: CNF, rc: ClauseID, rl: Lit)
    requires
        c0.wf(),
        lit_removed(c0, c1, rc, rl),
        c0.clauses@.contains_key(rc),
    ensures
        lists_shrink(c0, c1),
{
    let w = var_of(rl.0) as u32;
    assert forall|v: VarId, x: ClauseID|
        c0.vars@.contains_key(v) && #[trigger] c1.vars@[v].pos_occ@.contains(x) implies c0.vars@[v].pos_occ@.contains(x) by {
        if v == w && rl.0 > 0 {
            lemma_without_first_subset(c0.vars@[v].pos_occ@, rc, x);
        }
    }
    assert forall|v: VarId, x: ClauseID|
        c0.vars@.contains_key(v) && #[trigger] c1.vars@[v].neg_occ@.contains(x) implies c0.vars@[v].neg_occ@.contains(x) by {
        if v == w && rl.0 < 0 {
            lemma_without_first_subset(c0.vars@[v].neg_occ@, rc, x);
        }
    }
}

/// Taking a clause out shrinks the lists.
proof fn lemma_deactivation_shrinks(c0: CNF, c1: CNF, dc: ClauseID)
    requires
        c0.clauses@.contains_key(dc),
        c1.clauses@.dom() == c0.clauses@.dom(),
        forall|id: ClauseID| #[trigger] c0.clauses@.contains_key(id) && id != dc ==> c1.clauses@[id] == c0.clauses@[id],
        !c1.clauses@[dc].active,
        c1.vars@.dom() == c0.vars@.dom(),
        forall|v: VarId|
            #[trigger] c0.vars@.contains_key(v) ==> var_model(c1.vars@[v]) == clause_removed_times(
                var_model(c0.vars@[v]),
                dc,
                count_var(c0.clauses@[dc].lits@, v),
            ),
    ensures
        lists_shrink(c0, c1),
{
    assert forall|v: VarId, x: ClauseID|
        c0.vars@.contains_key(v) && #[trigger] c1.vars@[v].pos_occ@.contains(x) implies c0.vars@[v].pos_occ@.contains(x) by {
        lemma_removed_times_subset(var_model(c0.vars@[v]), dc, count_var(c0.clauses@[dc].lits@, v), x);
    }
    assert forall|v: VarId, x: ClauseID|
        c0.vars@.contains_key(v) && #[trigger] c1.vars@[v].neg_occ@.contains(x) implies c0.vars@[v].neg_occ@.contains(x) by {
        lemma_removed_times_subset(var_model(c0.vars@[v]), dc, count_var(c0.clauses@[dc].lits@, v), x);
    }
}

impl CNF {
    /// The formula is consistent: clause IDs are at most the greatest one given out, literals
    /// name variables of the formula, the occurrences of variables and the queued units name
    /// clauses of the formula.
    pub open spec fn wf(&self) -> bool {
        &&& forall|id: ClauseID| #[trigger] self.clauses@.contains_key(id) ==> id <= self.max_clause_id
        &&& forall|id: ClauseID| #[trigger] self.clauses@.contains_key(id) ==> lits_in(self.clauses@[id], self.vars@)
        &&& forall|v: VarId| #[trigger] self.vars@.contains_key(v) ==> occ_in(self.vars@[v], self.clauses@)
        &&& forall|j: int|
            0 <= j < self.units@.len() ==> self.clauses@.contains_key((#[trigger] self.units@[j]).0)
                && lit_in(self.units@[j].1, self.vars@)
    }

    /// Makes a formula of clauses and variables; the unit clauses are queued, each once (in the
    /// order in which the map of clauses is walked). There must be at least one clause.
    pub fn new(clauses: Clauses, vars: Vars) -> (r: Self)
        requires
            exists|id: ClauseID| clauses@.contains_key(id),
            forall|id: ClauseID| #[trigger] clauses@.contains_key(id) ==> lits_in(clauses@[id], vars@),
            forall|v: VarId| #[trigger] vars@.contains_key(v) ==> occ_in(vars@[v], clauses@),
        ensures
            r.wf(),
            r.clauses@ == clauses@,
            r.vars@ == vars@,
            r.clauses@.contains_key(r.max_clause_id),
            r.units@.no_duplicates(),
            forall|p: (ClauseID, Lit)|
                r.units@.contains(p) <==> (clauses@.contains_key(p.0) && clauses@[p.0].lits@.len() == 1
                    && clauses@[p.0].lits@[0] == p.1),
    {
        let keys = fx_keys(&clauses);
        let mut units: VecDeque<(ClauseID, Lit)> = VecDeque::new();
        let mut max_clause_id: ClauseID = 0;
        let mut seen_any = false;
        let mut i: usize = 0;
        while i < keys.len()
            invariant
                keys@.no_duplicates(),
                keys@.to_set() == clauses@.dom(),
                i <= keys@.len(),
                forall|id: ClauseID| #[trigger] clauses@.contains_key(id) ==> lits_in(clauses@[id], vars@),
                seen_any == (i > 0),
                seen_any ==> clauses@.contains_key(max_clause_id),
                forall|k: int| 0 <= k < i ==> keys@[k] <= max_clause_id,
                units@.no_duplicates(),
                forall|j: int| 0 <= j < units@.len() ==> exists|k: int| 0 <= k < i && keys@[k] == (#[trigger] units@[j]).0,
                forall|p: (ClauseID, Lit)|
                    units@.contains(p) ==> (clauses@.contains_key(p.0) && clauses@[p.0].lits@.len() == 1
                        && clauses@[p.0].lits@[0] == p.1),
                forall|k: int|
                    0 <= k < i && clauses@[#[trigger] keys@[k]].lits@.len() == 1 ==> units@.contains(
                        (keys@[k], clauses@[keys@[k]].lits@[0]),
                    ),
            decreases keys@.len() - i,
        {
            let id = keys[i];
            assert(keys@.to_set().contains(id));
            let clause = fx_get(&clauses, id).unwrap();
            if clause.lits.len() == 1 {
                let ghost u0 = units@;
                proof {
                    assert forall|j: int| 0 <= j < u0.len() implies (#[trigger] u0[j]).0 != id by {
                        let k = choose|k: int| 0 <= k < i && keys@[k] == u0[j].0;
                    }
                }
                units.push_back((id, clause.lits[0]));
                proof {
                    assert(units@ == u0.push((id, clause.lits@[0])));
                    assert forall|j: int| 0 <= j < units@.len() implies exists|k: int|
                        0 <= k < i + 1 && keys@[k] == (#[trigger] units@[j]).0 by {
                        if j < u0.len() {
                            assert(units@[j] == u0[j]);
                            let k = choose|k: int| 0 <= k < i && keys@[k] == u0[j].0;
                        } else {
                            assert(keys@[i as int] == units@[j].0);
                        }
                    }
                    assert forall|p: (ClauseID, Lit)| units@.contains(p) implies (clauses@.contains_key(p.0)
                        && clauses@[p.0].lits@.len() == 1 && clauses@[p.0].lits@[0] == p.1) by {
                        let j = choose|j: int| 0 <= j < units@.len() && units@[j] == p;
                        if j < u0.len() {
                            assert(u0[j] == p);
                            assert(u0.contains(p));
                        } else {
                            assert(units@[j] == (id, clause.lits@[0]));
                            assert(clauses@[id] == *clause);
                        }
                    }
                    assert forall|k: int|
                        0 <= k < i + 1 && clauses@[#[trigger] keys@[k]].lits@.len() == 1 implies units@.contains(
                        (keys@[k], clauses@[keys@[k]].lits@[0]),
                    ) by {
                        if k < i {
                            let j = choose|j: int| 0 <= j < u0.len() && u0[j] == (keys@[k], clauses@[keys@[k]].lits@[0]);
                            assert(units@[j] == u0[j]);
                        } else {
                            assert(units@[u0.len() as int] == (id, clause.lits@[0]));
                        }
                    }
                }
            }
            if !seen_any || id > max_clause_id {
                max_clause_id = id;
            }
            seen_any = true;
            i = i + 1;
        }
        proof {
            assert(keys@.len() > 0) by {
                let id = choose|id: ClauseID| clauses@.contains_key(id);
                assert(keys@.to_set().contains(id));
            }
            assert forall|id: ClauseID| #[trigger] clauses@.contains_key(id) implies id <= max_clause_id by {
                assert(keys@.to_set().contains(id));
                let k = choose|k: int| 0 <= k < keys@.len() && keys@[k] == id;
            }
            assert forall|p: (ClauseID, Lit)|
                (clauses@.contains_key(p.0) && clauses@[p.0].lits@.len() == 1 && clauses@[p.0].lits@[0]
                    == p.1) implies units@.contains(p) by {
                assert(keys@.to_set().contains(p.0));
                let k = choose|k: int| 0 <= k < keys@.len() && keys@[k] == p.0;
            }
            assert forall|j: int| 0 <= j < units@.len() implies clauses@.contains_key((#[trigger] units@[j]).0)
                && lit_in(units@[j].1, vars@) by {
                assert(units@.contains(units@[j]));
                let id = units@[j].0;
                assert(lits_in(clauses@[id], vars@));
                assert(lit_in(clauses@[id].lits@[0], vars@));
            }
        }
        CNF { clauses, vars, units, max_clause_id }
    }

    /// Queues a unit clause with its literal, unless a unit of the same literal is queued.
    pub fn add_unit(&mut self, clause_id: ClauseID, lit: Lit)
        ensures
            final(self).units@ == unit_added(old(self).units@, clause_id, lit),
            final(self).clauses == old(self).clauses,
            final(self).vars == old(self).vars,
            final(self).max_clause_id == old(self).max_clause_id,
    {
        let n = self.units.len();
        let mut j: usize = 0;
        while j < n
            invariant
                n == self.units@.len(),
                self.units@ == old(self).units@,
                self.clauses == old(self).clauses,
                self.vars == old(self).vars,
                self.max_clause_id == old(self).max_clause_id,
                j <= n,
                forall|k: int| 0 <= k < j ==> self.units@[k].1 != lit,
            decreases n - j,
        {
            if self.units[j].1 == lit {
                return;
            }
            j = j + 1;
        }
        self.units.push_back((clause_id, lit));
    }

    /// Adds a clause under the next clause ID: each of its literals records the occurrence in
    /// its variable, and a clause of one literal is queued as a unit.
    pub fn add_clause(&mut self, clause: Clause)
        requires
            old(self).wf(),
            lits_in(clause, old(self).vars@),
            old(self).max_clause_id < u32::MAX,
        ensures
            final(self).wf(),
            final(self).max_clause_id == old(self).max_clause_id + 1,
            final(self).clauses@ == old(self).clauses@.insert(final(self).max_clause_id, clause),
            final(self).vars@.dom() == old(self).vars@.dom(),
            forall|v: VarId|
                #[trigger] old(self).vars@.contains_key(v) ==> {
                    &&& final(self).vars@[v].pos_occ@ == if has_lit(clause.lits@, v as int) {
                        add_once(old(self).vars@[v].pos_occ@, final(self).max_clause_id)
                    } else {
                        old(self).vars@[v].pos_occ@
                    }
                    &&& final(self).vars@[v].neg_occ@ == if has_lit(clause.lits@, -(v as int)) {
                        add_once(old(self).vars@[v].neg_occ@, final(self).max_clause_id)
                    } else {
                        old(self).vars@[v].neg_occ@
                    }
                    &&& final(self).vars@[v].active == old(self).vars@[v].active
                },
            final(self).units@ == if clause.lits@.len() == 1 {
                unit_added(old(self).units@, final(self).max_clause_id, clause.lits@[0])
            } else {
                old(self).units@
            },
    {
        let id = self.max_clause_id + 1;
        let ghost v0 = self.vars@;
        let n = clause.lits.len();
        let mut j: usize = 0;
        while j < n
            invariant
                n == clause.lits@.len(),
                j <= n,
                id == old(self).max_clause_id + 1,
                v0 == old(self).vars@,
                lits_in(clause, old(self).vars@),
                self.clauses == old(self).clauses,
                self.units == old(self).units,
                self.max_clause_id == old(self).max_clause_id,
                self.vars@.dom() == v0.dom(),
                forall|v: VarId|
                    #[trigger] v0.contains_key(v) ==> {
                        &&& self.vars@[v].pos_occ@ == if has_lit(clause.lits@.take(j as int), v as int) {
                            add_once(v0[v].pos_occ@, id)
                        } else {
                            v0[v].pos_occ@
                        }
                        &&& self.vars@[v].neg_occ@ == if has_lit(clause.lits@.take(j as int), -(v as int)) {
                            add_once(v0[v].neg_occ@, id)
                        } else {
                            v0[v].neg_occ@
                        }
                        &&& self.vars@[v].active == v0[v].active
                    },
            decreases n - j,
        {
            let lit = clause.lits[j];
            assert(lit_in(clause.lits@[j as int], v0));
            let ghost vid = var_of(lit.0) as u32;
            let ghost before = self.vars@;
            let var = fx_get_mut(&mut self.vars, lit.var_id());
            if lit.pos() {
                var.add_pos_occ(id);
            } else {
                var.add_neg_occ(id);
            }
            proof {
                let t0 = clause.lits@.take(j as int);
                let t1 = clause.lits@.take(j + 1);
                assert(t1 =~= t0.push(lit));
                assert forall|x: int| has_lit(t1, x) <==> (has_lit(t0, x) || lit.0 == x) by {
                    if has_lit(t1, x) && !(lit.0 == x) {
                        let k = choose|k: int| 0 <= k < t1.len() && t1[k].0 == x;
                        assert(t0[k] == t1[k]);
                    }
                    if has_lit(t0, x) {
                        let k = choose|k: int| 0 <= k < t0.len() && t0[k].0 == x;
                        assert(t1[k] == t0[k]);
                    }
                    if lit.0 == x {
                        assert(t1[j as int] == lit);
                    }
                }
                lemma_add_once_twice(v0[vid].pos_occ@, id);
                lemma_add_once_twice(v0[vid].neg_occ@, id);
                assert(self.vars@.dom() =~= v0.dom());
            }
            j = j + 1;
        }
        assert(clause.lits@.take(n as int) =~= clause.lits@);
        if clause.lits.len() == 1 {
            self.add_unit(id, clause.lits[0]);
        }
        fx_insert(&mut self.clauses, id, clause);
        self.max_clause_id = id;
        proof {
            let c = self.clauses@;
            assert forall|v: VarId| #[trigger] self.vars@.contains_key(v) implies occ_in(self.vars@[v], c) by {
                assert(v0.contains_key(v));
                assert(occ_in(v0[v], old(self).clauses@));
                let x = self.vars@[v];
                assert forall|k: int| 0 <= k < x.pos_occ@.len() implies c.contains_key(#[trigger] x.pos_occ@[k]) by {
                    if x.pos_occ@[k] != id {
                        if !v0[v].pos_occ@.contains(x.pos_occ@[k]) {
                            assert(x.pos_occ@ == v0[v].pos_occ@.push(id));
                        }
                        let k0 = choose|k0: int| 0 <= k0 < v0[v].pos_occ@.len() && v0[v].pos_occ@[k0] == x.pos_occ@[k];
                    }
                }
                assert forall|k: int| 0 <= k < x.neg_occ@.len() implies c.contains_key(#[trigger] x.neg_occ@[k]) by {
                    if x.neg_occ@[k] != id {
                        if !v0[v].neg_occ@.contains(x.neg_occ@[k]) {
                            assert(x.neg_occ@ == v0[v].neg_occ@.push(id));
                        }
                        let k0 = choose|k0: int| 0 <= k0 < v0[v].neg_occ@.len() && v0[v].neg_occ@[k0] == x.neg_occ@[k];
                    }
                }
            }
            assert forall|cid: ClauseID| #[trigger] c.contains_key(cid) implies lits_in(c[cid], self.vars@) by {
                if cid != id {
                    assert(lits_in(old(self).clauses@[cid], v0));
                }
            }
            assert forall|j: int| 0 <= j < self.units@.len() implies c.contains_key((#[trigger] self.units@[j]).0)
                && lit_in(self.units@[j].1, self.vars@) by {
                if j < old(self).units@.len() {
                    assert(self.units@[j] == old(self).units@[j]);
                } else {
                    assert(lit_in(clause.lits@[0], v0));
                }
            }
        }
    }

    /// Takes a clause out of the formula: it stays, inactive, and each of its literals removes
    /// one occurrence of the clause from the lists of its variable.
    pub fn deactivate_clause(&mut self, clause_id: ClauseID)
        requires
            old(self).wf(),
            old(self).clauses@.contains_key(clause_id),
        ensures
            final(self).wf(),
            final(self).max_clause_id == old(self).max_clause_id,
            final(self).units == old(self).units,
            final(self).clauses@.dom() == old(self).clauses@.dom(),
            forall|id: ClauseID|
                #[trigger] old(self).clauses@.contains_key(id) && id != clause_id ==> final(self).clauses@[id]
                    == old(self).clauses@[id],
            final(self).clauses@[clause_id].lits == old(self).clauses@[clause_id].lits,
            final(self).clauses@[clause_id].sig == old(self).clauses@[clause_id].sig,
            !final(self).clauses@[clause_id].active,
            final(self).vars@.dom() == old(self).vars@.dom(),
            forall|v: VarId|
                #[trigger] old(self).vars@.contains_key(v) ==> var_model(final(self).vars@[v])
                    == clause_removed_times(
                    var_model(old(self).vars@[v]),
                    clause_id,
                    count_var(old(self).clauses@[clause_id].lits@, v),
                ),
    {
        let ghost v0 = self.vars@;
        let clause = fx_get(&self.clauses, clause_id).unwrap();
        let ghost lits = clause.lits@;
        assert(lits_in(*clause, v0));
        let n = clause.lits.len();
        let mut j: usize = 0;
        while j < n
            invariant
                n == lits.len(),
                j <= n,
                clause.lits@ == lits,
                lits == old(self).clauses@[clause_id].lits@,
                lits_in(*clause, v0),
                v0 == old(self).vars@,
                self.clauses == old(self).clauses,
                self.units == old(self).units,
                self.max_clause_id == old(self).max_clause_id,
                self.vars@.dom() == v0.dom(),
                forall|v: VarId|
                    #[trigger] v0.contains_key(v) ==> var_model(self.vars@[v]) == clause_removed_times(
                        var_model(v0[v]),
                        clause_id,
                        count_var(lits.take(j as int), v),
                    ),
            decreases n - j,
        {
            let lit = clause.lits[j];
            assert(lit_in(lits[j as int], v0));
            let ghost vid = var_of(lit.0) as u32;
            let var = fx_get_mut(&mut self.vars, lit.var_id());
            var.remove_clause(clause_id);
            proof {
                let t0 = lits.take(j as int);
                assert(lits.take(j + 1) =~= t0.push(lit));
                assert forall|v: VarId| #[trigger] v0.contains_key(v) implies count_var(lits.take(j + 1), v)
                    == count_var(t0, v) + if v == vid {
                    1nat
                } else {
                    0nat
                } by {
                    t0.lemma_filter_push(lit, |l: Lit| var_of(l.0) == v as int);
                }
                assert(self.vars@.dom() =~= v0.dom());
            }
            j = j + 1;
        }
        assert(lits.take(n as int) =~= lits);
        let c = fx_get_mut(&mut self.clauses, clause_id);
        c.active = false;
        proof {
            let cs = self.clauses@;
            assert forall|v: VarId| #[trigger] self.vars@.contains_key(v) implies occ_in(self.vars@[v], cs) by {
                let k = count_var(lits, v);
                assert(occ_in(v0[v], old(self).clauses@));
                let x = self.vars@[v];
                assert forall|i: int| 0 <= i < x.pos_occ@.len() implies cs.contains_key(#[trigger] x.pos_occ@[i]) by {
                    assert(x.pos_occ@.contains(x.pos_occ@[i]));
                    lemma_removed_times_subset(var_model(v0[v]), clause_id, k, x.pos_occ@[i]);
                    let i0 = choose|i0: int| 0 <= i0 < v0[v].pos_occ@.len() && v0[v].pos_occ@[i0] == x.pos_occ@[i];
                }
                assert forall|i: int| 0 <= i < x.neg_occ@.len() implies cs.contains_key(#[trigger] x.neg_occ@[i]) by {
                    assert(x.neg_occ@.contains(x.neg_occ@[i]));
                    lemma_removed_times_subset(var_model(v0[v]), clause_id, k, x.neg_occ@[i]);
                    let i0 = choose|i0: int| 0 <= i0 < v0[v].neg_occ@.len() && v0[v].neg_occ@[i0] == x.neg_occ@[i];
                }
            }
            assert forall|id: ClauseID| #[trigger] cs.contains_key(id) implies lits_in(cs[id], self.vars@) by {
                assert(lits_in(old(self).clauses@[id], v0));
            }
        }
    }

    /// Removes the first occurrence of a literal from a clause (the clause's last literal takes
    /// its place), clears the literal's bit in the clause's signature, removes the first
    /// occurrence of the clause from the literal's list of its variable, and queues the clause
    /// as a unit if one literal is left.
    pub fn remove_lit(&mut self, clause_id: ClauseID, lit: Lit)
        requires
            old(self).wf(),
            old(self).clauses@.contains_key(clause_id),
            lit_in(lit, old(self).vars@),
        ensures
            final(self).wf(),
            lit_removed(*old(self), *final(self), clause_id, lit),
    {
        let ghost vid = var_of(lit.0) as u32;
        let ghost c0 = self.clauses@[clause_id];
        let ghost x0 = self.vars@[vid];
        let clause = fx_get_mut(&mut self.clauses, clause_id);
        let var = fx_get_mut(&mut self.vars, lit.var_id());
        remove_element(&mut clause.lits, lit);
        clause.sig = clause.sig & !(1u128 << (lit.hash1() as u32));
        if lit.pos() {
            remove_element(&mut var.pos_occ, clause_id);
        } else {
            remove_element(&mut var.neg_occ, clause_id);
        }
        let ghost mid_clauses = self.clauses@;
        let ghost mid_vars = self.vars@;
        proof {
            let x = self.vars@[vid];
            assert forall|i: int| 0 <= i < x.pos_occ@.len() implies self.clauses@.contains_key(#[trigger] x.pos_occ@[i]) by {
                assert(x.pos_occ@.contains(x.pos_occ@[i]));
                if lit.0 > 0 {
                    lemma_without_first_subset(x0.pos_occ@, clause_id, x.pos_occ@[i]);
                }
                let i0 = choose|i0: int| 0 <= i0 < x0.pos_occ@.len() && x0.pos_occ@[i0] == x.pos_occ@[i];
                assert(occ_in(x0, old(self).clauses@));
            }
            assert forall|i: int| 0 <= i < x.neg_occ@.len() implies self.clauses@.contains_key(#[trigger] x.neg_occ@[i]) by {
                assert(x.neg_occ@.contains(x.neg_occ@[i]));
                if lit.0 < 0 {
                    lemma_without_first_subset(x0.neg_occ@, clause_id, x.neg_occ@[i]);
                }
                let i0 = choose|i0: int| 0 <= i0 < x0.neg_occ@.len() && x0.neg_occ@[i0] == x.neg_occ@[i];
                assert(occ_in(x0, old(self).clauses@));
            }
            let c = self.clauses@[clause_id];
            assert forall|j: int| 0 <= j < c.lits@.len() implies lit_in(#[trigger] c.lits@[j], self.vars@) by {
                assert(c.lits@.contains(c.lits@[j]));
                lemma_without_first_subset(c0.lits@, lit, c.lits@[j]);
                let j0 = choose|j0: int| 0 <= j0 < c0.lits@.len() && c0.lits@[j0] == c.lits@[j];
                assert(lits_in(c0, old(self).vars@));
            }
            assert(self.vars@.dom() =~= old(self).vars@.dom());
            assert(self.clauses@.dom() =~= old(self).clauses@.dom());
            assert forall|v: VarId| #[trigger] self.vars@.contains_key(v) implies occ_in(self.vars@[v], self.clauses@) by {
                if v != vid {
                    assert(occ_in(old(self).vars@[v], old(self).clauses@));
                }
            }
            assert forall|id: ClauseID| #[trigger] self.clauses@.contains_key(id) implies lits_in(self.clauses@[id], self.vars@) by {
                if id != clause_id {
                    assert(lits_in(old(self).clauses@[id], old(self).vars@));
                }
            }
        }
        let clause = fx_get(&self.clauses, clause_id).unwrap();
        if clause.lits.len() == 1 {
            let first = clause.lits[0];
            assert(lit_in(clause.lits@[0], self.vars@));
            self.add_unit(clause_id, first);
        }
    }

    /// Unit propagation: for each queued unit (in queue order) with literal `x`, the literal
    /// `-x` is removed from the other clauses of the variable's opposite list and the other
    /// clauses of the unit's own list are taken out; returns the IDs of the clauses taken out,
    /// in that order. Every unit queued at the start is handled: in the end no clause other than
    /// its own is listed under its literal unless that clause was taken out. The search is
    /// bounded by `u64::MAX` units.
    pub fn unit_prop(&mut self) -> (r: Vec<ClauseID>)
        requires
            old(self).wf(),
        ensures
            final(self).wf(),
            final(self).max_clause_id == old(self).max_clause_id,
            final(self).clauses@.dom() == old(self).clauses@.dom(),
            final(self).vars@.dom() == old(self).vars@.dom(),
            forall|j: int|
                0 <= j < r@.len() ==> final(self).clauses@.contains_key(#[trigger] r@[j])
                    && !final(self).clauses@[r@[j]].active,
            keeps_out(*old(self), *final(self)),
            no_longer(*old(self), *final(self)),
            forall|u: int|
                0 <= u < old(self).units@.len() ==> unit_done(
                    final(self).vars@,
                    final(self).clauses@,
                    r@,
                    (#[trigger] old(self).units@[u]).0,
                    old(self).units@[u].1,
                ),
    {
        let mut deac_clause_ids: Vec<ClauseID> = Vec::new();
        let ghost u0 = self.units@;
        let queued: usize = self.units.len();
        let ghost mut handled: int = 0;
        let mut fuel: u64 = u64::MAX;
        while fuel > 0
            invariant
                self.wf(),
                self.max_clause_id == old(self).max_clause_id,
                self.clauses@.dom() == old(self).clauses@.dom(),
                self.vars@.dom() == old(self).vars@.dom(),
                forall|j: int|
                    0 <= j < deac_clause_ids@.len() ==> self.clauses@.contains_key(#[trigger] deac_clause_ids@[j])
                        && !self.clauses@[deac_clause_ids@[j]].active,
                u0 == old(self).units@,
                keeps_out(*old(self), *self),
                no_longer(*old(self), *self),
                queued == u0.len(),
                0 <= handled <= u0.len(),
                handled < u0.len() ==> self.units@.len() >= u0.len() - handled && self.units@.take(
                    u0.len() - handled,
                ) == u0.skip(handled),
                handled < u0.len() ==> handled == u64::MAX - fuel,
                forall|u: int| 0 <= u < u0.len() ==> lit_in((#[trigger] u0[u]).1, self.vars@),
                forall|u: int| 0 <= u < handled ==> unit_done(self.vars@, self.clauses@, deac_clause_ids@, (#[trigger] u0[u]).0, u0[u].1),
            ensures
                handled == u0.len(),
            decreases fuel,
        {
            fuel = fuel - 1;
            let ghost q0 = self.units@;
            let ghost h0 = handled;
            let (clause_id, lit) = match self.units.pop_front() {
                Some(u) => u,
                None => {
                    break;
                },
            };
            proof {
                if h0 < u0.len() {
                    assert(q0.take(u0.len() - h0)[0] == u0.skip(h0)[0]);
                    assert(u0[h0] == (clause_id, lit));
                    assert(self.units@.take(u0.len() - h0 - 1) =~= u0.skip(h0 + 1)) by {
                        assert forall|i: int| 0 <= i < u0.len() - h0 - 1 implies #[trigger] self.units@.take(u0.len() - h0 - 1)[i]
                            == u0.skip(h0 + 1)[i] by {
                            assert(q0.take(u0.len() - h0)[i + 1] == u0.skip(h0)[i + 1]);
                        }
                    }
                }
            }
            let ghost front = if h0 < u0.len() { u0.skip(h0 + 1) } else { Seq::<(ClauseID, Lit)>::empty() };
            assert(self.units@.take(front.len() as int) =~= front);
            let ghost c_pop = *self;
            let ghost r_pop = deac_clause_ids@;
            assert(lit_in(q0[0].1, self.vars@));
            let var = fx_get(&self.vars, lit.var_id()).unwrap();
            let (removals, deactivations) = if lit.pos() {
                (copy_ids(&var.neg_occ), copy_ids(&var.pos_occ))
            } else {
                (copy_ids(&var.pos_occ), copy_ids(&var.neg_occ))
            };
            assert(deactivations@ == listed_under(c_pop.vars@, lit));
            proof {
                assert(occ_in(*var, self.clauses@));
            }
            let opposite = lit.neg();
            let mut k: usize = 0;
            while k < removals.len()
                invariant
                    self.wf(),
                    self.max_clause_id == old(self).max_clause_id,
                    self.clauses@.dom() == old(self).clauses@.dom(),
                    self.vars@.dom() == old(self).vars@.dom(),
                    lit_in(opposite, self.vars@),
                    forall|j: int| 0 <= j < removals@.len() ==> self.clauses@.contains_key(#[trigger] removals@[j]),
                    forall|j: int| 0 <= j < deactivations@.len() ==> self.clauses@.contains_key(#[trigger] deactivations@[j]),
                    forall|j: int|
                        0 <= j < deac_clause_ids@.len() ==> self.clauses@.contains_key(#[trigger] deac_clause_ids@[j])
                            && !self.clauses@[deac_clause_ids@[j]].active,
                    deac_clause_ids@ == r_pop,
                    c_pop.wf(),
                    keeps_out(*old(self), c_pop),
                    keeps_out(*old(self), *self),
                    no_longer(*old(self), *self),
                    lists_shrink(c_pop, *self),
                    self.units@.len() >= front.len(),
                    self.units@.take(front.len() as int) == front,
                    0 <= h0 <= u0.len(),
                    forall|u: int| 0 <= u < u0.len() ==> lit_in((#[trigger] u0[u]).1, self.vars@),
                    forall|u: int| 0 <= u < h0 ==> unit_done(self.vars@, self.clauses@, deac_clause_ids@, (#[trigger] u0[u]).0, u0[u].1),
                decreases removals@.len() - k,
            {
                let c = removals[k];
                if c != clause_id {
                    let ghost c_before = *self;
                    self.remove_lit(c, opposite);
                    proof {
                        lemma_removal_shrinks(c_before, *self, c, opposite);
                        lemma_removal_no_longer(c_before, *self, c, opposite);
                        assert forall|x: ClauseID| #[trigger] old(self).clauses@.contains_key(x) implies self.clauses@.contains_key(x)
                            && self.clauses@[x].lits@.len() <= old(self).clauses@[x].lits@.len() by {
                            assert(c_before.clauses@.contains_key(x));
                        }
                        assert forall|x: ClauseID|
                            #[trigger] old(self).clauses@.contains_key(x) && !old(self).clauses@[x].active implies self.clauses@.contains_key(x)
                                && !self.clauses@[x].active by {
                            assert(!c_before.clauses@[x].active);
                        }
                        assert forall|u: int| 0 <= u < h0 implies unit_done(self.vars@, self.clauses@, deac_clause_ids@, (#[trigger] u0[u]).0, u0[u].1) by {
                            lemma_done_kept(c_before, *self, deac_clause_ids@, deac_clause_ids@, u0[u].0, u0[u].1);
                        }
                        assert(lists_shrink(c_pop, *self)) by {
                            assert forall|v: VarId, x: ClauseID|
                                c_pop.vars@.contains_key(v) && #[trigger] self.vars@[v].pos_occ@.contains(x) implies c_pop.vars@[v].pos_occ@.contains(x) by {
                                assert(c_before.vars@[v].pos_occ@.contains(x));
                            }
                            assert forall|v: VarId, x: ClauseID|
                                c_pop.vars@.contains_key(v) && #[trigger] self.vars@[v].neg_occ@.contains(x) implies c_pop.vars@[v].neg_occ@.contains(x) by {
                                assert(c_before.vars@[v].neg_occ@.contains(x));
                            }
                            assert forall|x: ClauseID|
                                c_pop.clauses@.contains_key(x) && !c_pop.clauses@[x].active implies !(#[trigger] self.clauses@[x]).active by {
                                assert(!c_before.clauses@[x].active);
                            }
                        }
                        let cu = c_before.units@;
                        if self.units@ != cu {
                            assert(self.units@.take(front.len() as int) =~= cu.take(front.len() as int));
                        }
                    }
                }
                k = k + 1;
            }
            let mut k: usize = 0;
            while k < deactivations.len()
                invariant
                    self.wf(),
                    self.max_clause_id == old(self).max_clause_id,
                    self.clauses@.dom() == old(self).clauses@.dom(),
                    self.vars@.dom() == old(self).vars@.dom(),
                    forall|j: int| 0 <= j < deactivations@.len() ==> self.clauses@.contains_key(#[trigger] deactivations@[j]),
                    forall|j: int|
                        0 <= j < deac_clause_ids@.len() ==> self.clauses@.contains_key(#[trigger] deac_clause_ids@[j])
                            && !self.clauses@[deac_clause_ids@[j]].active,
                    k <= deactivations@.len(),
                    deactivations@ == listed_under(c_pop.vars@, lit),
                    c_pop.wf(),
                    keeps_out(*old(self), c_pop),
                    keeps_out(*old(self), *self),
                    no_longer(*old(self), *self),
                    lit_in(lit, c_pop.vars@),
                    lists_shrink(c_pop, *self),
                    forall|x: ClauseID| r_pop.contains(x) ==> deac_clause_ids@.contains(x),
                    forall|j: int|
                        0 <= j < k && #[trigger] deactivations@[j] != clause_id ==> !self.clauses@[deactivations@[j]].active
                            && deac_clause_ids@.contains(deactivations@[j]),
                    self.units@.len() >= front.len(),
                    self.units@.take(front.len() as int) == front,
                    0 <= h0 <= u0.len(),
                    forall|u: int| 0 <= u < u0.len() ==> lit_in((#[trigger] u0[u]).1, self.vars@),
                    forall|u: int| 0 <= u < h0 ==> unit_done(self.vars@, self.clauses@, deac_clause_ids@, (#[trigger] u0[u]).0, u0[u].1),
                decreases deactivations@.len() - k,
            {
                let c = deactivations[k];
                if c != clause_id {
                    let ghost d0 = deac_clause_ids@;
                    let ghost c_before = *self;
                    self.deactivate_clause(c);
                    deac_clause_ids.push(c);
                    proof {
                        assert forall|j: int|
                            0 <= j < deac_clause_ids@.len() implies self.clauses@.contains_key(
                            #[trigger] deac_clause_ids@[j],
                        ) && !self.clauses@[deac_clause_ids@[j]].active by {
                            if j < d0.len() {
                                assert(deac_clause_ids@[j] == d0[j]);
                            }
                        }
                        assert(forall|x: ClauseID| d0.contains(x) ==> deac_clause_ids@.contains(x)) by {
                            assert forall|x: ClauseID| d0.contains(x) implies deac_clause_ids@.contains(x) by {
                                let w = choose|w: int| 0 <= w < d0.len() && d0[w] == x;
                                assert(deac_clause_ids@[w] == x);
                            }
                        }
                        assert(deac_clause_ids@[d0.len() as int] == c);
                        lemma_deactivation_shrinks(c_before, *self, c);
                        assert forall|x: ClauseID| #[trigger] old(self).clauses@.contains_key(x) implies self.clauses@.contains_key(x)
                            && self.clauses@[x].lits@.len() <= old(self).clauses@[x].lits@.len() by {
                            assert(c_before.clauses@.contains_key(x));
                        }
                        assert forall|x: ClauseID|
                            #[trigger] old(self).clauses@.contains_key(x) && !old(self).clauses@[x].active implies self.clauses@.contains_key(x)
                                && !self.clauses@[x].active by {
                            assert(!c_before.clauses@[x].active);
                        }
                        assert forall|u: int| 0 <= u < h0 implies unit_done(self.vars@, self.clauses@, deac_clause_ids@, (#[trigger] u0[u]).0, u0[u].1) by {
                            lemma_done_kept(c_before, *self, d0, deac_clause_ids@, u0[u].0, u0[u].1);
                        }
                        assert(lists_shrink(c_pop, *self)) by {
                            assert forall|v: VarId, x: ClauseID|
                                c_pop.vars@.contains_key(v) && #[trigger] self.vars@[v].pos_occ@.contains(x) implies c_pop.vars@[v].pos_occ@.contains(x) by {
                                assert(c_before.vars@[v].pos_occ@.contains(x));
                            }
                            assert forall|v: VarId, x: ClauseID|
                                c_pop.vars@.contains_key(v) && #[trigger] self.vars@[v].neg_occ@.contains(x) implies c_pop.vars@[v].neg_occ@.contains(x) by {
                                assert(c_before.vars@[v].neg_occ@.contains(x));
                            }
                            assert forall|x: ClauseID|
                                c_pop.clauses@.contains_key(x) && !c_pop.clauses@[x].active implies !(#[trigger] self.clauses@[x]).active by {
                                assert(!c_before.clauses@[x].active);
                            }
                        }
                        assert forall|j: int|
                            0 <= j < k + 1 && #[trigger] deactivations@[j] != clause_id implies !self.clauses@[deactivations@[j]].active
                                && deac_clause_ids@.contains(deactivations@[j]) by {
                            if j < k {
                                assert(!c_before.clauses@[deactivations@[j]].active);
                            }
                        }
                    }
                }
                k = k + 1;
            }
            proof {
                if h0 < u0.len() {
                    assert(unit_done(self.vars@, self.clauses@, deac_clause_ids@, clause_id, lit)) by {
                        let v = var_of(lit.0) as u32;
                        assert forall|j: int|
                            0 <= j < listed_under(self.vars@, lit).len() && #[trigger] listed_under(self.vars@, lit)[j] != clause_id implies !self.clauses@[listed_under(self.vars@, lit)[j]].active && deac_clause_ids@.contains(listed_under(self.vars@, lit)[j]) by {
                            let x = listed_under(self.vars@, lit)[j];
                            assert(listed_under(self.vars@, lit).contains(x));
                            if lit.0 > 0 {
                                assert(self.vars@[v].pos_occ@.contains(x));
                            } else {
                                assert(self.vars@[v].neg_occ@.contains(x));
                            }
                            assert(deactivations@.contains(x));
                            let w = choose|w: int| 0 <= w < deactivations@.len() && deactivations@[w] == x;
                        }
                    }
                    handled = h0 + 1;
                }
            }
        }
        proof {
            assert forall|u: int| 0 <= u < old(self).units@.len() implies unit_done(
                self.vars@,
                self.clauses@,
                deac_clause_ids@,
                (#[trigger] old(self).units@[u]).0,
                old(self).units@[u].1,
            ) by {
                assert(u0[u] == old(self).units@[u]);
            }
        }
        deac_clause_ids
    }

    /// Makes a formula of parsed clauses over the variables `1..=vars_count`. The clause at
    /// position `i` gets the ID `i + 1` unless it is a tautology, in which case it is left out;
    /// repeated literals are kept once, where they first occur. Each variable lists, in order,
    /// the clauses it occurs in positively and negatively. At least one clause must be kept.
    pub fn from_pre(pre_clauses: &[Vec<i32>], vars_count: u16) -> (r: CNF)
        requires
            pre_clauses@.len() < u32::MAX,
            forall|i: int, j: int|
                0 <= i < pre_clauses@.len() && 0 <= j < pre_clauses@[i]@.len() ==> #[trigger] pre_clauses@[i]@[j]
                    != 0 && -(vars_count as int) <= pre_clauses@[i]@[j] <= vars_count,
            exists|i: int| 0 <= i < pre_clauses@.len() && !is_tautology(as_ints(#[trigger] pre_clauses@[i]@)),
        ensures
            r.wf(),
            forall|id: ClauseID|
                #[trigger] r.clauses@.contains_key(id) <==> 1 <= id <= pre_clauses@.len() && !is_tautology(
                    as_ints(pre_clauses@[id - 1]@),
                ),
            forall|id: ClauseID|
                #[trigger] r.clauses@.contains_key(id) ==> lit_numbers(r.clauses@[id].lits@) == distinct_lits(
                    as_ints(pre_clauses@[id - 1]@),
                ) && r.clauses@[id].sig == crate::preprocess::cnf::clause::signature(r.clauses@[id].lits@)
                    && r.clauses@[id].active,
            forall|id: ClauseID|
                #[trigger] r.clauses@.contains_key(id) ==> !is_tautology(lit_numbers(r.clauses@[id].lits@)),
            forall|v: VarId| #[trigger] r.vars@.contains_key(v) <==> 1 <= v <= vars_count,
            forall|v: VarId|
                1 <= v <= vars_count ==> {
                    &&& (#[trigger] r.vars@[v]).pos_occ@ == occurrence_ids(
                        pre_clauses@.map_values(|c: Vec<i32>| as_ints(c@)),
                        v as int,
                        pre_clauses@.len() as int,
                    )
                    &&& r.vars@[v].neg_occ@ == occurrence_ids(
                        pre_clauses@.map_values(|c: Vec<i32>| as_ints(c@)),
                        -(v as int),
                        pre_clauses@.len() as int,
                    )
                    &&& r.vars@[v].active
                },
            r.units@.no_duplicates(),
            forall|p: (ClauseID, Lit)|
                r.units@.contains(p) <==> (r.clauses@.contains_key(p.0) && r.clauses@[p.0].lits@.len() == 1
                    && r.clauses@[p.0].lits@[0] == p.1),
    {
        let ghost pre = pre_clauses@.map_values(|c: Vec<i32>| as_ints(c@));
        let mut clauses: Clauses = FxHashMap::default();
        let mut vars: Vars = FxHashMap::default();
        let mut v: u32 = 1;
        while v <= vars_count as u32
            invariant
                1 <= v <= vars_count as u32 + 1,
                forall|x: VarId| #[trigger] vars@.contains_key(x) <==> 1 <= x < v,
                forall|x: VarId|
                    #[trigger] vars@.contains_key(x) ==> vars@[x].pos_occ@.len() == 0 && vars@[x].neg_occ@.len()
                        == 0 && vars@[x].active,
            decreases vars_count as u32 + 1 - v,
        {
            fx_insert(&mut vars, v, Var::new());
            v = v + 1;
        }
        let n = pre_clauses.len();
        proof {
            assert forall|x: VarId| 1 <= x <= vars_count implies {
                &&& (#[trigger] vars@[x]).pos_occ@ == occurrence_ids(pre, x as int, 0)
                &&& vars@[x].neg_occ@ == occurrence_ids(pre, -(x as int), 0)
                &&& vars@[x].active
            } by {
                assert(vars@.contains_key(x));
                assert(vars@[x].pos_occ@ =~= Seq::<ClauseID>::empty());
                assert(vars@[x].neg_occ@ =~= Seq::<ClauseID>::empty());
            }
        }
        let mut i: usize = 0;
        while i < n
            invariant
                n == pre_clauses@.len(),
                n < u32::MAX,
                pre == pre_clauses@.map_values(|c: Vec<i32>| as_ints(c@)),
                i <= n,
                forall|i: int, j: int|
                    0 <= i < pre_clauses@.len() && 0 <= j < pre_clauses@[i]@.len() ==> #[trigger] pre_clauses@[i]@[j]
                        != 0 && -(vars_count as int) <= pre_clauses@[i]@[j] <= vars_count,
                forall|x: VarId| #[trigger] vars@.contains_key(x) <==> 1 <= x <= vars_count,
                forall|id: ClauseID|
                    #[trigger] clauses@.contains_key(id) <==> 1 <= id <= i && !is_tautology(pre[id - 1]),
                forall|id: ClauseID|
                    #[trigger] clauses@.contains_key(id) ==> lit_numbers(clauses@[id].lits@) == distinct_lits(pre[id - 1])
                        && clauses@[id].sig == crate::preprocess::cnf::clause::signature(clauses@[id].lits@)
                        && clauses@[id].active && lits_in(clauses@[id], vars@),
                forall|x: VarId|
                    1 <= x <= vars_count ==> {
                        &&& (#[trigger] vars@[x]).pos_occ@ == occurrence_ids(pre, x as int, i as int)
                        &&& vars@[x].neg_occ@ == occurrence_ids(pre, -(x as int), i as int)
                        &&& vars@[x].active
                    },
            decreases n - i,
        {
            let pre_clause = &pre_clauses[i];
            assert(pre[i as int] == as_ints(pre_clause@));
            proof {
                assert forall|j: int| 0 <= j < pre_clause@.len() implies -65535 <= #[trigger] pre_clause@[j] <= 65535 by {
                    assert(pre_clauses@[i as int]@[j] == pre_clause@[j]);
                }
            }
            if is_tautological(pre_clause) {
                proof {
                    assert forall|id: ClauseID| #[trigger] clauses@.contains_key(id) <==> 1 <= id <= i + 1
                        && !is_tautology(pre[id - 1]) by {
                    }
                    assert forall|x: VarId| 1 <= x <= vars_count implies {
                        &&& (#[trigger] vars@[x]).pos_occ@ == occurrence_ids(pre, x as int, i + 1)
                        &&& vars@[x].neg_occ@ == occurrence_ids(pre, -(x as int), i + 1)
                    } by {
                    }
                }
                i = i + 1;
                continue;
            }
            let id = i as u32 + 1;
            let ghost c = pre[i as int];
            let ghost v0 = vars@;
            let mut lits: Vec<Lit> = Vec::new();
            let m = pre_clause.len();
            let mut j: usize = 0;
            while j < m
                invariant
                    m == pre_clause@.len(),
                    c == as_ints(pre_clause@),
                    j <= m,
                    id == i + 1,
                    i < n,
                    n < u32::MAX,
                    forall|k: int| 0 <= k < m ==> #[trigger] c[k] != 0 && -(vars_count as int) <= c[k] <= vars_count,
                    forall|x: VarId| #[trigger] vars@.contains_key(x) <==> 1 <= x <= vars_count,
                    lit_numbers(lits@) == distinct_lits(c.take(j as int)),
                    forall|k: int| 0 <= k < lits@.len() ==> lit_in(#[trigger] lits@[k], vars@),
                    forall|x: VarId|
                        1 <= x <= vars_count ==> {
                            &&& (#[trigger] vars@[x]).pos_occ@ == if c.take(j as int).contains(x as int) {
                                add_once(v0[x].pos_occ@, id)
                            } else {
                                v0[x].pos_occ@
                            }
                            &&& vars@[x].neg_occ@ == if c.take(j as int).contains(-(x as int)) {
                                add_once(v0[x].neg_occ@, id)
                            } else {
                                v0[x].neg_occ@
                            }
                            &&& vars@[x].active == v0[x].active
                        },
                decreases m - j,
            {
                let pre_lit = pre_clause[j];
                assert(c[j as int] == pre_lit as int);
                let var_id = lit_var(pre_lit);
                let ghost t0 = c.take(j as int);
                let ghost t1 = c.take(j + 1);
                proof {
                    assert(t1 =~= t0.push(pre_lit as int));
                    assert forall|y: int| t1.contains(y) <==> (t0.contains(y) || y == pre_lit) by {
                        if t1.contains(y) && y != pre_lit {
                            let k = choose|k: int| 0 <= k < t1.len() && t1[k] == y;
                            assert(t0[k] == y);
                        }
                        if t0.contains(y) {
                            let k = choose|k: int| 0 <= k < t0.len() && t0[k] == y;
                            assert(t1[k] == y);
                        }
                        if y == pre_lit {
                            assert(t1[j as int] == y);
                        }
                    }
                }
                let var = fx_get_mut(&mut vars, var_id);
                if pre_lit > 0 {
                    var.add_pos_occ(id);
                } else {
                    var.add_neg_occ(id);
                }
                proof {
                    lemma_add_once_twice(v0[var_id].pos_occ@, id);
                    lemma_add_once_twice(v0[var_id].neg_occ@, id);
                }
                let mut seen = false;
                let mut k: usize = 0;
                while k < lits.len()
                    invariant
                        k <= lits@.len(),
                        seen == exists|q: int| 0 <= q < k && lits@[q].0 == pre_lit,
                    decreases lits@.len() - k,
                {
                    if lits[k].0 == pre_lit {
                        seen = true;
                    }
                    k = k + 1;
                }
                proof {
                    assert(distinct_lits(c.take(j + 1)) == if distinct_lits(t0).contains(pre_lit as int) {
                        distinct_lits(t0)
                    } else {
                        distinct_lits(t0).push(pre_lit as int)
                    }) by {
                        assert(c.take(j + 1).drop_last() =~= t0);
                    }
                    assert(seen == distinct_lits(t0).contains(pre_lit as int)) by {
                        if seen {
                            let q = choose|q: int| 0 <= q < lits@.len() && lits@[q].0 == pre_lit;
                            assert(lit_numbers(lits@)[q] == pre_lit);
                        }
                        if distinct_lits(t0).contains(pre_lit as int) {
                            let q = choose|q: int| 0 <= q < distinct_lits(t0).len() && distinct_lits(t0)[q] == pre_lit;
                            assert(lit_numbers(lits@)[q] == lits@[q].0);
                        }
                    }
                }
                if !seen {
                    lits.push(Lit::new(pre_lit));
                    proof {
                        assert(lit_numbers(lits@) =~= distinct_lits(t0).push(pre_lit as int));
                    }
                }
                j = j + 1;
            }
            assert(c.take(m as int) =~= c);
            let clause = Clause::new(lits);
            let ghost cl0 = clauses@;
            fx_insert(&mut clauses, id, clause);
            proof {
                assert forall|x: VarId| 1 <= x <= vars_count implies {
                    &&& (#[trigger] vars@[x]).pos_occ@ == occurrence_ids(pre, x as int, i + 1)
                    &&& vars@[x].neg_occ@ == occurrence_ids(pre, -(x as int), i + 1)
                } by {
                    lemma_occurrence_ids(pre, x as int, i as int);
                    lemma_occurrence_ids(pre, -(x as int), i as int);
                    if !v0[x].pos_occ@.contains(id) {
                    } else {
                        let q = choose|q: int| 0 <= q < v0[x].pos_occ@.len() && v0[x].pos_occ@[q] == id;
                    }
                    if !v0[x].neg_occ@.contains(id) {
                    } else {
                        let q = choose|q: int| 0 <= q < v0[x].neg_occ@.len() && v0[x].neg_occ@[q] == id;
                    }
                }
                assert forall|cid: ClauseID| #[trigger] clauses@.contains_key(cid) implies lit_numbers(
                    clauses@[cid].lits@,
                ) == distinct_lits(pre[cid - 1]) && clauses@[cid].sig == crate::preprocess::cnf::clause::signature(
                    clauses@[cid].lits@,
                ) && clauses@[cid].active && lits_in(clauses@[cid], vars@) by {
                    if cid != id {
                        assert(lits_in(cl0[cid], v0));
                        assert forall|q: int| 0 <= q < cl0[cid].lits@.len() implies lit_in(
                            #[trigger] cl0[cid].lits@[q],
                            vars@,
                        ) by {
                            assert(lit_in(cl0[cid].lits@[q], v0));
                        }
                    }
                }
            }
            i = i + 1;
        }
        proof {
            let w = choose|w: int| 0 <= w < pre_clauses@.len() && !is_tautology(as_ints(#[trigger] pre_clauses@[w]@));
            assert(pre[w] == as_ints(pre_clauses@[w]@));
            assert(clauses@.contains_key((w + 1) as u32));
            assert forall|x: VarId| #[trigger] vars@.contains_key(x) implies occ_in(vars@[x], clauses@) by {
                lemma_occurrence_ids(pre, x as int, n as int);
                lemma_occurrence_ids(pre, -(x as int), n as int);
            }
            assert forall|id: ClauseID| #[trigger] clauses@.contains_key(id) implies !is_tautology(
                lit_numbers(clauses@[id].lits@),
            ) by {
                lemma_distinct_lits_no_tautology(as_ints(pre_clauses@[id - 1]@));
            }
        }
        CNF::new(clauses, vars)
    }

    /// Turns the formula into a formula of the solver. Clauses of one literal become active
    /// again (so that their assignment is kept); then each active clause, in the order in which
    /// the map of clauses is walked, becomes a clause of the solver, numbered from 0. Each
    /// variable counts its positive and negative occurrences (saturating at the largest
    /// `usize`). The variables must be numbered `1..=n`, and active clauses must not be empty.
    pub fn to_cnf_formula(&mut self) -> (r: CnfFormula)
        requires
            old(self).wf(),
            old(self).vars@.dom().len() < i32::MAX,
            forall|v: VarId| #[trigger] old(self).vars@.contains_key(v) <==> 1 <= v <= old(self).vars@.dom().len(),
            forall|id: ClauseID|
                #[trigger] old(self).clauses@.contains_key(id) && old(self).clauses@[id].active ==> old(
                    self,
                ).clauses@[id].lits@.len() > 0,
        ensures
            final(self).wf(),
            final(self).vars == old(self).vars,
            final(self).units == old(self).units,
            final(self).max_clause_id == old(self).max_clause_id,
            final(self).clauses@.dom() == old(self).clauses@.dom(),
            forall|id: ClauseID|
                #[trigger] old(self).clauses@.contains_key(id) ==> final(self).clauses@[id].lits == old(self).clauses@[id].lits
                    && final(self).clauses@[id].sig == old(self).clauses@[id].sig
                    && final(self).clauses@[id].active == (old(self).clauses@[id].active || old(self).clauses@[id].lits@.len() == 1),
            r.wf(),
            (forall|id: ClauseID|
                #[trigger] old(self).clauses@.contains_key(id) && old(self).clauses@[id].active ==> !is_tautology(
                    lit_numbers(old(self).clauses@[id].lits@),
                )) ==> watches_sound(r),
            r.variable_count == old(self).vars@.dom().len(),
            forall|i: int| 0 <= i < r.assignments@.len() ==> r.assignments@[i] is None,
            r.free_indices@.len() == 0,
            r.current_id == r.clauses@.len(),
            exists|ks: Seq<ClauseID>|
                {
                    &&& ks.no_duplicates()
                    &&& ks.to_set() == final(self).clauses@.dom()
                    &&& r.clauses@.len() == ks.filter(|id: ClauseID| final(self).clauses@[id].active).len()
                    &&& forall|i: int|
                        0 <= i < r.clauses@.len() ==> as_ints(#[trigger] r.clauses@[i].literals@) == lit_numbers(
                            final(self).clauses@[ks.filter(|id: ClauseID| final(self).clauses@[id].active)[i]].lits@,
                        )
                },
            forall|v: int|
                1 <= v <= r.variable_count ==> (#[trigger] r.variables.0@[v - 1]).positive_occurrences_count
                    == saturating_sum(0, literal_count(formula_lits(r.clauses@), v) as int)
                    && r.variables.0@[v - 1].negative_occurrences_count == saturating_sum(
                    0,
                    literal_count(formula_lits(r.clauses@), -v) as int,
                ),
    {
        let keys = fx_keys(&self.clauses);
        let mut i: usize = 0;
        while i < keys.len()
            invariant
                i <= keys@.len(),
                keys@.to_set() == old(self).clauses@.dom(),
                keys@.no_duplicates(),
                self.vars == old(self).vars,
                self.units == old(self).units,
                self.max_clause_id == old(self).max_clause_id,
                self.clauses@.dom() == old(self).clauses@.dom(),
                forall|id: ClauseID|
                    #[trigger] old(self).clauses@.contains_key(id) ==> self.clauses@[id].lits == old(self).clauses@[id].lits
                        && self.clauses@[id].sig == old(self).clauses@[id].sig
                        && self.clauses@[id].active == (old(self).clauses@[id].active || (
                        old(self).clauses@[id].lits@.len() == 1 && exists|k: int| 0 <= k < i && keys@[k] == id)),
            decreases keys@.len() - i,
        {
            let id = keys[i];
            assert(keys@.to_set().contains(id));
            let c = fx_get_mut(&mut self.clauses, id);
            if c.lits.len() == 1 {
                c.active = true;
            }
            proof {
                assert(self.clauses@.dom() =~= old(self).clauses@.dom());
                assert forall|cid: ClauseID|
                    #[trigger] old(self).clauses@.contains_key(cid) implies self.clauses@[cid].active == (
                    old(self).clauses@[cid].active || (old(self).clauses@[cid].lits@.len() == 1 && exists|k: int|
                        0 <= k < i + 1 && keys@[k] == cid)) by {
                    if cid == id {
                        assert(keys@[i as int] == id);
                    } else if exists|k: int| 0 <= k < i + 1 && keys@[k] == cid {
                        let k = choose|k: int| 0 <= k < i + 1 && keys@[k] == cid;
                        assert(k != i);
                    }
                }
            }
            i = i + 1;
        }
        proof {
            assert forall|cid: ClauseID|
                #[trigger] old(self).clauses@.contains_key(cid) implies self.clauses@[cid].active == (
                old(self).clauses@[cid].active || old(self).clauses@[cid].lits@.len() == 1) by {
                if old(self).clauses@[cid].lits@.len() == 1 {
                    assert(keys@.to_set().contains(cid));
                }
            }
            assert forall|cid: ClauseID| #[trigger] self.clauses@.contains_key(cid) implies lits_in(self.clauses@[cid], self.vars@) by {
                assert(lits_in(old(self).clauses@[cid], old(self).vars@));
            }
            assert forall|v: VarId| #[trigger] self.vars@.contains_key(v) implies occ_in(self.vars@[v], self.clauses@) by {
                assert(occ_in(old(self).vars@[v], old(self).clauses@));
            }
        }
        let n = fx_len(&self.vars);
        proof {
            let k = self.vars@.dom().len();
            assert(self.vars@.dom() =~= <u32 as vstd::set_lib::FiniteRange>::range_set(1, (k + 1) as u32));
            vstd::set_lib::range_set_properties::<u32>(1, (k + 1) as u32);
        }
        let mut clauses: Vec<crate::cnf::clause::Clause> = Vec::new();
        let mut variables = Variables::new(n);
        let keys = fx_keys(&self.clauses);
        let ghost act = |id: ClauseID| self.clauses@[id].active;
        let ghost no_taut = forall|id: ClauseID|
            #[trigger] old(self).clauses@.contains_key(id) && old(self).clauses@[id].active ==> !is_tautology(
                lit_numbers(old(self).clauses@[id].lits@),
            );
        proof {
            if no_taut {
                assert forall|id: ClauseID| #[trigger] self.clauses@.contains_key(id) && self.clauses@[id].active implies !is_tautology(
                    lit_numbers(self.clauses@[id].lits@),
                ) by {
                    if !old(self).clauses@[id].active {
                        let x = lit_numbers(self.clauses@[id].lits@);
                        assert(lit_in(self.clauses@[id].lits@[0], self.vars@));
                        assert(x[0] != 0);
                    }
                }
            }
        }
        let mut i: usize = 0;
        while i < keys.len()
            invariant
                i <= keys@.len(),
                keys@.to_set() == self.clauses@.dom(),
                keys@.no_duplicates(),
                act == (|id: ClauseID| self.clauses@[id].active),
                self.wf(),
                n == self.vars@.dom().len(),
                n < i32::MAX,
                forall|v: VarId| #[trigger] self.vars@.contains_key(v) <==> 1 <= v <= n,
                forall|id: ClauseID|
                    #[trigger] self.clauses@.contains_key(id) && self.clauses@[id].active ==> self.clauses@[id].lits@.len() > 0,
                variables.0@.len() == n,
                clauses@.len() == keys@.take(i as int).filter(act).len(),
                forall|c: int|
                    0 <= c < clauses@.len() ==> as_ints((#[trigger] clauses@[c]).literals@) == lit_numbers(
                        self.clauses@[keys@.take(i as int).filter(act)[c]].lits@,
                    ) && crate::cnf::clause::clause_wf(clauses@[c], n as int),
                watch_lists_ok(variables.0@, clauses@),
                no_taut ==> forall|id: ClauseID|
                    #[trigger] self.clauses@.contains_key(id) && self.clauses@[id].active ==> !is_tautology(
                        lit_numbers(self.clauses@[id].lits@),
                    ),
                no_taut ==> complete_watches(variables.0@, clauses@),
                no_taut ==> forall|c: int|
                    0 <= c < clauses@.len() ==> non_tautological(#[trigger] clauses@[c]) && watch_shape(clauses@[c]),
                forall|v: int|
                    1 <= v <= n ==> (#[trigger] variables.0@[v - 1]).positive_occurrences_count
                        == saturating_sum(0, literal_count(formula_lits(clauses@), v) as int)
                        && variables.0@[v - 1].negative_occurrences_count == saturating_sum(
                        0,
                        literal_count(formula_lits(clauses@), -v) as int,
                    ),
            decreases keys@.len() - i,
        {
            let id = keys[i];
            assert(keys@.to_set().contains(id));
            let ghost sel0 = keys@.take(i as int).filter(act);
            proof {
                assert(keys@.take(i + 1) =~= keys@.take(i as int).push(id));
                keys@.take(i as int).lemma_filter_push(id, act);
            }
            let clause = fx_get(&self.clauses, id).unwrap();
            if clause.active {
                let ghost c = lit_numbers(clause.lits@);
                let ghost f0 = formula_lits(clauses@);
                let ghost vars0 = variables.0@;
                assert(lits_in(*clause, self.vars@));
                let mut literals = Literals::new();
                let m = clause.lits.len();
                let mut j: usize = 0;
                while j < m
                    invariant
                        m == clause.lits@.len(),
                        c == lit_numbers(clause.lits@),
                        j <= m,
                        n < i32::MAX,
                        lits_in(*clause, self.vars@),
                        forall|v: VarId| #[trigger] self.vars@.contains_key(v) <==> 1 <= v <= n,
                        variables.0@.len() == n,
                        as_ints(literals@) == c.take(j as int),
                        forall|l: int|
                            -(n as int) <= l <= n && l != 0 ==> watch_list(variables.0@, l) == watch_list(vars0, l),
                        forall|v: int|
                            1 <= v <= n ==> (#[trigger] variables.0@[v - 1]).positive_occurrences_count
                                == saturating_sum(0, (literal_count(f0, v) + count_in(c.take(j as int), v)) as int)
                                && variables.0@[v - 1].negative_occurrences_count == saturating_sum(
                                0,
                                (literal_count(f0, -v) + count_in(c.take(j as int), -v)) as int,
                            ),
                    decreases m - j,
                {
                    let lit = clause.lits[j];
                    assert(lit_in(clause.lits@[j as int], self.vars@));
                    let variable_id = lit.var_id();
                    assert(self.vars@.contains_key(variable_id));
                    let polarity = if lit.pos() {
                        Polarity::Positive
                    } else {
                        Polarity::Negative
                    };
                    literals.insert(variable_id, polarity);
                    proof {
                        let t0 = c.take(j as int);
                        assert(c[j as int] == lit.0);
                        assert(c.take(j + 1) =~= t0.push(lit.0 as int));
                        assert(as_ints(literals@) =~= c.take(j + 1));
                        assert forall|l: int| true implies count_in(c.take(j + 1), l) == count_in(t0, l) + if lit.0 == l {
                            1int
                        } else {
                            0int
                        } by {
                            t0.lemma_filter_push(lit.0 as int, |x: int| x == l);
                        }
                    }
                    let ghost before = variables.0@;
                    let variable = variables.get_mut(variable_id);
                    if lit.pos() {
                        variable.positive_occurrences_count = variable.positive_occurrences_count.saturating_add(1);
                    } else {
                        variable.negative_occurrences_count = variable.negative_occurrences_count.saturating_add(1);
                    }
                    proof {
                        assert forall|l: int| -(n as int) <= l <= n && l != 0 implies watch_list(variables.0@, l)
                            == watch_list(vars0, l) by {
                            assert(watch_list(before, l) == watch_list(vars0, l));
                        }
                    }
                    j = j + 1;
                }
                assert(c.take(m as int) =~= c);
                proof {
                    assert(watch_lists_ok(variables.0@, clauses@)) by {
                        assert forall|l: i32|
                            crate::cnf::literals::lit_ok(l) && 1 <= var_of(l) <= variables.0@.len() implies crate::cnf::cnf_formula::list_ok(
                            #[trigger] watch_list(variables.0@, l as int),
                            l as int,
                            clauses@,
                        ) by {
                            assert(watch_list(variables.0@, l as int) == watch_list(vars0, l as int));
                        }
                    }
                    assert forall|k: int| 0 <= k < literals@.len() implies crate::cnf::literals::lit_ok(
                        #[trigger] literals@[k],
                    ) && 1 <= var_of(literals@[k]) <= variables.0@.len() by {
                        assert(as_ints(literals@)[k] == c[k]);
                        assert(lit_in(clause.lits@[k], self.vars@));
                        assert(self.vars@.contains_key(var_of(clause.lits@[k].0) as u32));
                    }
                    if no_taut {
                        assert forall|k: int, l: i32|
                            #![trigger crate::cnf::clause::watches(clauses@[k], l as int), watch_list(variables.0@, l as int)]
                            0 <= k < clauses@.len() && crate::cnf::literals::lit_ok(l) && 1 <= var_of(l)
                                <= variables.0@.len() && crate::cnf::clause::watches(clauses@[k], l as int)
                                implies watch_list(variables.0@, l as int).contains(k as usize) by {
                            assert(watch_list(variables.0@, l as int) == watch_list(vars0, l as int));
                            assert(watch_list(vars0, l as int).contains(k as usize));
                        }
                        assert(!is_tautology(c));
                        assert forall|x: int, y: int| 0 <= x < literals@.len() && 0 <= y < literals@.len() implies #[trigger] literals@[x]
                            != -(#[trigger] literals@[y]) by {
                            assert(as_ints(literals@)[x] == c[x] && as_ints(literals@)[y] == c[y]);
                            assert(!(c[x] == -c[y]));
                        }
                    }
                }
                let ghost vars1 = variables.0@;
                let ghost cid = clauses@.len();
                let new_clause = crate::cnf::clause::Clause::new(literals, &mut variables, clauses.len());
                proof {
                    lemma_watch_lists_push(vars1, variables.0@, clauses@, new_clause, cid as usize);
                    if no_taut {
                        lemma_complete_watches_push(vars1, variables.0@, clauses@, new_clause, cid as usize);
                        assert(non_tautological(new_clause));
                        if new_clause.watched1 == new_clause.watched2 {
                            let lits = new_clause.literals@;
                            assert forall|x: int| 0 <= x < lits.len() implies #[trigger] lits[x] == new_clause.watched1 by {
                                lemma_same_var(lits[x], lits[lits.len() - 1]);
                                assert(lits[x] != -lits[lits.len() - 1]);
                            }
                        }
                    }
                }
                let ghost cl0 = clauses@;
                clauses.push(new_clause);
                proof {
                    assert(formula_lits(clauses@) =~= f0.push(c));
                    assert forall|v: int| 1 <= v <= n implies (#[trigger] variables.0@[v - 1]).positive_occurrences_count
                        == saturating_sum(0, literal_count(formula_lits(clauses@), v) as int)
                        && variables.0@[v - 1].negative_occurrences_count == saturating_sum(
                        0,
                        literal_count(formula_lits(clauses@), -v) as int,
                    ) by {
                        lemma_literal_count_push(f0, c, v);
                        lemma_literal_count_push(f0, c, -v);
                        assert(vars1[v - 1].positive_occurrences_count == variables.0@[v - 1].positive_occurrences_count);
                    }
                    let sel1 = keys@.take(i + 1).filter(act);
                    assert(sel1 == sel0.push(id));
                    assert forall|k: int| 0 <= k < clauses@.len() implies as_ints((#[trigger] clauses@[k]).literals@)
                        == lit_numbers(self.clauses@[sel1[k]].lits@) && crate::cnf::clause::clause_wf(
                        clauses@[k],
                        n as int,
                    ) by {
                        if k < clauses@.len() - 1 {
                            assert(clauses@[k] == cl0[k]);
                            assert(sel1[k] == sel0[k]);
                        }
                    }
                    if no_taut {
                        assert forall|k: int| 0 <= k < clauses@.len() implies non_tautological(#[trigger] clauses@[k])
                            && watch_shape(clauses@[k]) by {
                            if k < clauses@.len() - 1 {
                                assert(clauses@[k] == cl0[k]);
                            }
                        }
                    }
                }
            }
            i = i + 1;
        }
        assert(keys@.take(keys@.len() as int) =~= keys@);
        let r = CnfFormula::new(clauses, variables);
        proof {
            assert(r.variable_count == n);
        }
        r
    }
}

} // verus!
