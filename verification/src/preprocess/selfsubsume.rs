use crate::cnf::literals::var_of;
use crate::preprocess::cnf::clause::{Clause, ClauseID};
use crate::preprocess::cnf::cnf::{fx_get, lit_in, lit_removed, lits_in, occ_in, CNF};
use crate::preprocess::cnf::lit::{hash1_spec, Lit};
use vstd::prelude::*;

verus! {

/// The bloom filter of self-subsumption: whether the first signature without the bit of the
/// negated literal has a bit that the second signature without the bit of the literal lacks.
pub open spec fn bloom_spec(sig1: u128, sig2: u128, lit: Lit) -> bool {
    (sig1 & !(1u128 << (hash1_spec(Lit((-lit.0) as i32)) as u32))) & !(sig2 & !(1u128 << (hash1_spec(lit) as u32)))
        != 0
}

/// The first clause without the negation of `lit` is within the second clause without `lit`,
/// as the bloom filter and the literals show it.
pub open spec fn selfsubsumes_aux_spec(c1: Clause, c2: Clause, lit: Lit) -> bool {
    &&& !bloom_spec(c1.sig, c2.sig, lit)
    &&& forall|j: int|
        0 <= j < c1.lits@.len() ==> -(#[trigger] c1.lits@[j]).0 == lit.0 || c2.lits@.contains(c1.lits@[j])
}

/// The clauses that list the negation of `lit` among the occurrences of its variable.
pub open spec fn opposite_occ(cnf: CNF, lit: Lit) -> Seq<ClauseID> {
    if lit.0 > 0 {
        cnf.vars@[var_of(lit.0) as u32].neg_occ@
    } else {
        cnf.vars@[var_of(lit.0) as u32].pos_occ@
    }
}

/// Some clause that lists the negation of the literal at `i` of clause `c` strengthens `c` on
/// that literal.
pub open spec fn strengthens_at(cnf: CNF, c: Clause, i: int) -> bool {
    exists|k: int|
        0 <= k < opposite_occ(cnf, c.lits@[i]).len() && selfsubsumes_aux_spec(
            cnf.clauses@[#[trigger] opposite_occ(cnf, c.lits@[i])[k]],
            c,
            c.lits@[i],
        )
}

fn bloom_check(clause_sig1: u128, clause_sig2: u128, lit: Lit) -> (r: bool)
    requires
        lit.0 != i32::MIN,
    ensures
        r == bloom_spec(clause_sig1, clause_sig2, lit),
{
    let a = clause_sig1 & !(1u128 << (lit.neg().hash1() as u32));
    let b = clause_sig2 & !(1u128 << (lit.hash1() as u32));
    a & !b != 0
}

/// `C_1 \ -a` is within `C_2 \ a`.
fn selfsubsumes_aux(clause_id_1: ClauseID, clause_id_2: ClauseID, lit: Lit, cnf: &CNF) -> (r: bool)
    requires
        cnf.wf(),
        cnf.clauses@.contains_key(clause_id_1),
        cnf.clauses@.contains_key(clause_id_2),
        lit.0 != i32::MIN,
    ensures
        r == selfsubsumes_aux_spec(cnf.clauses@[clause_id_1], cnf.clauses@[clause_id_2], lit),
{
    let clause_1 = fx_get(&cnf.clauses, clause_id_1).unwrap();
    let clause_2 = fx_get(&cnf.clauses, clause_id_2).unwrap();
    if bloom_check(clause_1.sig, clause_2.sig, lit) {
        false
    } else {
        assert(lits_in(*clause_1, cnf.vars@));
        let n = clause_1.lits.len();
        let mut i: usize = 0;
        while i < n
            invariant
                n == clause_1.lits@.len(),
                *clause_1 == cnf.clauses@[clause_id_1],
                *clause_2 == cnf.clauses@[clause_id_2],
                lits_in(*clause_1, cnf.vars@),
                !bloom_spec(clause_1.sig, clause_2.sig, lit),
                i <= n,
                forall|j: int|
                    0 <= j < i ==> -(#[trigger] clause_1.lits@[j]).0 == lit.0 || clause_2.lits@.contains(
                        clause_1.lits@[j],
                    ),
            decreases n - i,
        {
            let lit_ = clause_1.lits[i];
            assert(lit_in(clause_1.lits@[i as int], cnf.vars@));
            if !(lit_.neg() == lit) {
                let mut found = false;
                let mut k: usize = 0;
                while k < clause_2.lits.len()
                    invariant
                        k <= clause_2.lits@.len(),
                        found == exists|q: int| 0 <= q < k && clause_2.lits@[q] == lit_,
                    decreases clause_2.lits@.len() - k,
                {
                    if clause_2.lits[k] == lit_ {
                        found = true;
                    }
                    k = k + 1;
                }
                if !found {
                    assert(!clause_2.lits@.contains(clause_1.lits@[i as int]));
                    return false;
                }
            }
            i = i + 1;
        }
        true
    }
}

/// Self-subsumption on a clause: the first literal of the clause (in its order) whose negation
/// is listed by a clause that, without that negation, lies within this clause without the
/// literal (the first such clause in the variable's list), is removed from the clause with
/// `remove_lit`. Returns whether a literal was removed; nothing changes otherwise.
pub fn selfsubsumes(clause_id: ClauseID, cnf: &mut CNF) -> (r: bool)
    requires
        old(cnf).wf(),
        old(cnf).clauses@.contains_key(clause_id),
    ensures
        final(cnf).wf(),
        r ==> exists|i: int|
            0 <= i < old(cnf).clauses@[clause_id].lits@.len() && strengthens_at(
                *old(cnf),
                old(cnf).clauses@[clause_id],
                i,
            ) && (forall|i2: int| 0 <= i2 < i ==> !strengthens_at(*old(cnf), old(cnf).clauses@[clause_id], i2))
                && lit_removed(*old(cnf), *final(cnf), clause_id, old(cnf).clauses@[clause_id].lits@[i]),
        !r ==> (forall|i: int|
            0 <= i < old(cnf).clauses@[clause_id].lits@.len() ==> !strengthens_at(
                *old(cnf),
                old(cnf).clauses@[clause_id],
                i,
            )) && *final(cnf) == *old(cnf),
{
    let ghost c0 = *cnf;
    let clause = fx_get(&cnf.clauses, clause_id).unwrap();
    assert(lits_in(*clause, cnf.vars@));
    let n = clause.lits.len();
    let mut found: Option<Lit> = None;
    let mut i: usize = 0;
    while found.is_none() && i < n
        invariant
            c0 == *cnf,
            c0.wf(),
            c0.clauses@.contains_key(clause_id),
            *clause == c0.clauses@[clause_id],
            lits_in(*clause, c0.vars@),
            n == clause.lits@.len(),
            i <= n,
            forall|i2: int| 0 <= i2 < i ==> !strengthens_at(c0, *clause, i2),
            found matches Some(l) ==> i < n && l == clause.lits@[i as int] && strengthens_at(
                c0,
                *clause,
                i as int,
            ),
        decreases n - i, (if found is None { 1int } else { 0int }),
    {
        let lit = clause.lits[i];
        assert(lit_in(clause.lits@[i as int], c0.vars@));
        let var = fx_get(&cnf.vars, lit.var_id()).unwrap();
        assert(occ_in(*var, c0.clauses@));
        let occ = if lit.pos() {
            &var.neg_occ
        } else {
            &var.pos_occ
        };
        assert(occ@ == opposite_occ(c0, lit));
        let mut k: usize = 0;
        let mut hit = false;
        while !hit && k < occ.len()
            invariant
                c0 == *cnf,
                c0.wf(),
                occ@ == opposite_occ(c0, lit),
                forall|q: int| 0 <= q < occ@.len() ==> c0.clauses@.contains_key(#[trigger] occ@[q]),
                c0.clauses@.contains_key(clause_id),
                lit.0 != i32::MIN,
                k <= occ@.len(),
                hit ==> k < occ@.len() && selfsubsumes_aux_spec(
                    c0.clauses@[occ@[k as int]],
                    c0.clauses@[clause_id],
                    lit,
                ),
                forall|q: int|
                    0 <= q < k ==> !selfsubsumes_aux_spec(
                        c0.clauses@[#[trigger] occ@[q]],
                        c0.clauses@[clause_id],
                        lit,
                    ),
            decreases occ@.len() - k, (if hit { 0int } else { 1int }),
        {
            if selfsubsumes_aux(occ[k], clause_id, lit, cnf) {
                hit = true;
            } else {
                k = k + 1;
            }
        }
        if hit {
            assert(strengthens_at(c0, *clause, i as int));
            found = Some(lit);
        } else {
            i = i + 1;
        }
    }
    match found {
        Some(lit) => {
            cnf.remove_lit(clause_id, lit);
            true
        },
        None => false,
    }
}

} // verus!
