use crate::cnf::literals::var_of;
use crate::preprocess::cnf::clause::{signature, Clause, ClauseID};
use crate::preprocess::cnf::lit::{hash1_spec, mix32_spec, Lit};
use crate::preprocess::cnf::cnf::{fx_get, lit_in, lits_in, occ_in, CNF};
use vstd::prelude::*;

verus! {

/// The first clause subsumes the second as the signatures and literals show it: no bit of the
/// first signature is missing from the second, and every literal of the first is one of the
/// second.
pub open spec fn subsumes_spec(c1: Clause, c2: Clause) -> bool {
    &&& c1.sig & !c2.sig == 0
    &&& forall|j: int| 0 <= j < c1.lits@.len() ==> c2.lits@.contains(#[trigger] c1.lits@[j])
}

/// The clauses that list the first literal of a clause among the occurrences of its variable
/// (with that literal's sign).
pub open spec fn first_lit_occ(cnf: CNF, c: Clause) -> Seq<ClauseID> {
    let l = c.lits@[0];
    if l.0 > 0 {
        cnf.vars@[var_of(l.0) as u32].pos_occ@
    } else {
        cnf.vars@[var_of(l.0) as u32].neg_occ@
    }
}

/// The hash of a literal picks one of the 128 bits of a signature.
proof fn lemma_hash_in_range(l: Lit)
    ensures
        hash1_spec(l) < 128,
{
    let m = mix32_spec(l.0 as u32);
    assert(m & 0x7f < 128) by (bit_vector);
}

/// The bit of a literal of `b` is set in the signature of `b`.
proof fn lemma_bit_in_signature(b: Seq<Lit>, l: Lit)
    requires
        b.contains(l),
    ensures
        (1u128 << hash1_spec(l)) & !signature(b) == 0,
    decreases b.len(),
{
    lemma_hash_in_range(l);
    let h = hash1_spec(l);
    let rest = signature(b.drop_last());
    let last = 1u128 << hash1_spec(b.last());
    if b.last() == l {
        assert((1u128 << h) & !(rest | (1u128 << h)) == 0) by (bit_vector);
    } else {
        let k = choose|k: int| 0 <= k < b.len() && b[k] == l;
        assert(b.drop_last()[k] == l);
        lemma_bit_in_signature(b.drop_last(), l);
        assert((1u128 << h) & !rest == 0 ==> (1u128 << h) & !(rest | last) == 0) by (bit_vector);
    }
}

/// The signature test never rules out a clause whose literals all occur in the other clause:
/// if every literal of `a` is a literal of `b`, no bit of the signature of `a` is missing from
/// the signature of `b`.
pub proof fn law_signature_admits_subsets(a: Seq<Lit>, b: Seq<Lit>)
    requires
        forall|j: int| 0 <= j < a.len() ==> b.contains(#[trigger] a[j]),
    ensures
        signature(a) & !signature(b) == 0,
    decreases a.len(),
{
    if a.len() > 0 {
        let a0 = a.drop_last();
        assert forall|j: int| 0 <= j < a0.len() implies b.contains(#[trigger] a0[j]) by {
            assert(a0[j] == a[j]);
        }
        law_signature_admits_subsets(a0, b);
        lemma_bit_in_signature(b, a.last());
        let x = signature(a0);
        let y = 1u128 << hash1_spec(a.last());
        let z = signature(b);
        assert(x & !z == 0 && y & !z == 0 ==> (x | y) & !z == 0) by (bit_vector);
        assert(signature(a) == x | y);
    } else {
        let z = signature(b);
        assert(0u128 & !z == 0) by (bit_vector);
    }
}

fn subsumes(clause_id_1: ClauseID, clause_id_2: ClauseID, cnf: &CNF) -> (r: bool)
    requires
        cnf.clauses@.contains_key(clause_id_1),
        cnf.clauses@.contains_key(clause_id_2),
    ensures
        r == subsumes_spec(cnf.clauses@[clause_id_1], cnf.clauses@[clause_id_2]),
{
    let clause_1 = fx_get(&cnf.clauses, clause_id_1).unwrap();
    let clause_2 = fx_get(&cnf.clauses, clause_id_2).unwrap();
    if clause_1.sig & !clause_2.sig != 0 {
        false
    } else {
        let n = clause_1.lits.len();
        let mut i: usize = 0;
        while i < n
            invariant
                n == clause_1.lits@.len(),
                *clause_1 == cnf.clauses@[clause_id_1],
                *clause_2 == cnf.clauses@[clause_id_2],
                clause_1.sig & !clause_2.sig == 0,
                i <= n,
                forall|j: int| 0 <= j < i ==> clause_2.lits@.contains(#[trigger] clause_1.lits@[j]),
            decreases n - i,
        {
            let lit = clause_1.lits[i];
            let mut found = false;
            let mut k: usize = 0;
            while k < clause_2.lits.len()
                invariant
                    k <= clause_2.lits@.len(),
                    found == exists|q: int| 0 <= q < k && clause_2.lits@[q] == lit,
                decreases clause_2.lits@.len() - k,
            {
                if clause_2.lits[k] == lit {
                    found = true;
                }
                k = k + 1;
            }
            if !found {
                assert(!clause_2.lits@.contains(clause_1.lits@[i as int]));
                return false;
            }
            i = i + 1;
        }
        true
    }
}

/// Whether another clause that lists the first literal of the clause subsumes it (see
/// `subsumes_spec`); a clause without literals is never subsumed.
pub fn subsumed(clause_id: ClauseID, cnf: &CNF) -> (r: bool)
    requires
        cnf.wf(),
        cnf.clauses@.contains_key(clause_id),
    ensures
        r == (cnf.clauses@[clause_id].lits@.len() > 0 && exists|j: int|
            0 <= j < first_lit_occ(*cnf, cnf.clauses@[clause_id]).len() && #[trigger] first_lit_occ(
                *cnf,
                cnf.clauses@[clause_id],
            )[j] != clause_id && subsumes_spec(
                cnf.clauses@[clause_id],
                cnf.clauses@[first_lit_occ(*cnf, cnf.clauses@[clause_id])[j]],
            )),
{
    let clause = fx_get(&cnf.clauses, clause_id).unwrap();
    if clause.lits.len() == 0 {
        return false;
    }
    let first = clause.lits[0];
    assert(lits_in(*clause, cnf.vars@));
    assert(lit_in(clause.lits@[0], cnf.vars@));
    let var = fx_get(&cnf.vars, first.var_id()).unwrap();
    assert(occ_in(*var, cnf.clauses@));
    let clause_ids = if first.pos() {
        &var.pos_occ
    } else {
        &var.neg_occ
    };
    let ghost occ = first_lit_occ(*cnf, *clause);
    assert(clause_ids@ == occ);
    let mut i: usize = 0;
    while i < clause_ids.len()
        invariant
            clause_ids@ == occ,
            occ == first_lit_occ(*cnf, cnf.clauses@[clause_id]),
            cnf.clauses@[clause_id].lits@.len() > 0,
            cnf.clauses@.contains_key(clause_id),
            forall|j: int| 0 <= j < occ.len() ==> cnf.clauses@.contains_key(#[trigger] occ[j]),
            i <= occ.len(),
            forall|j: int|
                0 <= j < i ==> !(#[trigger] occ[j] != clause_id && subsumes_spec(
                    cnf.clauses@[clause_id],
                    cnf.clauses@[occ[j]],
                )),
        decreases occ.len() - i,
    {
        let other = clause_ids[i];
        if other != clause_id && subsumes(clause_id, other, cnf) {
            assert(occ[i as int] != clause_id && subsumes_spec(cnf.clauses@[clause_id], cnf.clauses@[occ[i as int]]));
            return true;
        }
        i = i + 1;
    }
    false
}

} // verus!
