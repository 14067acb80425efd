pub mod clause;
pub mod cnf;
pub mod lit;
pub mod misc;
pub mod var;

use vstd::prelude::*;

verus! {

/// A small hash of a literal: its lowest six bits.
pub fn lit_hash(lit: i32) -> (r: u8)
    ensures
        r == ((lit as u8) & 0x3f),
        r < 64,
{
    let b = lit as u8;
    assert(b & 0x3f < 64) by (bit_vector);
    b & 0x3f
}

/// The test that keeps every clause ID but `id`.
pub open spec fn kept_unless(id: u32) -> spec_fn(u32) -> bool {
    |c: u32| c != id
}

/// A variable with the IDs of the clauses it occurs in, positively and negatively, and
/// whether it still occurs anywhere. Its `remove_clause` forgets every occurrence of a
/// clause at once.
#[derive(Debug, PartialEq, Clone)]
pub struct Var {
    pub pos_occ: Vec<u32>,
    pub neg_occ: Vec<u32>,
    pub active: bool,
}

/// Appends `clause_id` to `occ` unless it is there already.
fn push_once(occ: &mut Vec<u32>, clause_id: u32)
    ensures
        final(occ)@ == (if old(occ)@.contains(clause_id) {
            old(occ)@
        } else {
            old(occ)@.push(clause_id)
        }),
{
    let mut i: usize = 0;
    while i < occ.len()
        invariant
            occ@ == old(occ)@,
            i <= occ@.len(),
            forall|k: int| 0 <= k < i ==> occ@[k] != clause_id,
        decreases occ@.len() - i,
    {
        if occ[i] == clause_id {
            return;
        }
        i = i + 1;
    }
    occ.push(clause_id);
}

/// Drops every occurrence of `clause_id` from `occ`, keeping the order of the rest.
fn drop_all(occ: &mut Vec<u32>, clause_id: u32)
    ensures
        final(occ)@ == old(occ)@.filter(kept_unless(clause_id)),
{
    let mut out: Vec<u32> = Vec::new();
    let mut i: usize = 0;
    while i < occ.len()
        invariant
            occ@ == old(occ)@,
            i <= occ@.len(),
            out@ == occ@.take(i as int).filter(kept_unless(clause_id)),
        decreases occ@.len() - i,
    {
        let c = occ[i];
        proof {
            assert(occ@.take(i + 1) =~= occ@.take(i as int).push(c));
            occ@.take(i as int).lemma_filter_push(c, kept_unless(clause_id));
        }
        if c != clause_id {
            out.push(c);
        }
        i = i + 1;
    }
    assert(occ@.take(occ@.len() as int) =~= occ@);
    *occ = out;
}

impl Var {
    pub fn new() -> (r: Var)
        ensures
            r.pos_occ@.len() == 0,
            r.neg_occ@.len() == 0,
            r.active,
    {
        Var { pos_occ: Vec::new(), neg_occ: Vec::new(), active: true }
    }

    /// Records a positive occurrence in a clause, once.
    pub fn add_pos_occ(&mut self, clause_id: u32)
        ensures
            final(self).pos_occ@ == (if old(self).pos_occ@.contains(clause_id) {
                old(self).pos_occ@
            } else {
                old(self).pos_occ@.push(clause_id)
            }),
            final(self).neg_occ@ == old(self).neg_occ@,
            final(self).active == old(self).active,
    {
        push_once(&mut self.pos_occ, clause_id);
    }

    /// Records a negative occurrence in a clause, once.
    pub fn add_neg_occ(&mut self, clause_id: u32)
        ensures
            final(self).neg_occ@ == (if old(self).neg_occ@.contains(clause_id) {
                old(self).neg_occ@
            } else {
                old(self).neg_occ@.push(clause_id)
            }),
            final(self).pos_occ@ == old(self).pos_occ@,
            final(self).active == old(self).active,
    {
        push_once(&mut self.neg_occ, clause_id);
    }

    /// Forgets every occurrence of a clause; a variable left with no occurrence becomes
    /// inactive.
    pub fn remove_clause(&mut self, clause_id: u32)
        ensures
            final(self).pos_occ@ == old(self).pos_occ@.filter(kept_unless(clause_id)),
            final(self).neg_occ@ == old(self).neg_occ@.filter(kept_unless(clause_id)),
            final(self).active == (old(self).active && final(self).pos_occ@.len()
                + final(self).neg_occ@.len() != 0),
            !final(self).pos_occ@.contains(clause_id),
            !final(self).neg_occ@.contains(clause_id),
    {
        drop_all(&mut self.pos_occ, clause_id);
        drop_all(&mut self.neg_occ, clause_id);
        proof {
            broadcast use vstd::seq_lib::group_filter_ensures;
        }
        if self.pos_occ.len() == 0 && self.neg_occ.len() == 0 {
            self.active = false;
        }
    }
}

} // verus!
