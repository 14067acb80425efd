use crate::preprocess::cnf::clause::ClauseID;
use crate::preprocess::cnf::misc::{remove_element, without_first};
use vstd::prelude::*;

verus! {

pub type VarId = u32;

/// A variable of the preprocessor: the clauses it occurs in, positively and negatively, and
/// whether it still occurs anywhere.
#[derive(Debug, PartialEq, Clone)]
pub struct Var {
    pub pos_occ: Vec<ClauseID>,
    pub neg_occ: Vec<ClauseID>,
    pub active: bool,
}

/// `s` with `e` appended, unless it holds `e` already.
pub open spec fn add_once(s: Seq<ClauseID>, e: ClauseID) -> Seq<ClauseID> {
    if s.contains(e) {
        s
    } else {
        s.push(e)
    }
}

/// The lists of a variable and whether it is active, as values.
pub open spec fn var_model(x: Var) -> (Seq<ClauseID>, Seq<ClauseID>, bool) {
    (x.pos_occ@, x.neg_occ@, x.active)
}

/// What `remove_clause` makes of a variable.
pub open spec fn clause_removed(m: (Seq<ClauseID>, Seq<ClauseID>, bool), id: ClauseID) -> (
    Seq<ClauseID>,
    Seq<ClauseID>,
    bool,
) {
    let p = without_first(m.0, id);
    let n = without_first(m.1, id);
    (p, n, m.2 && p.len() + n.len() != 0)
}

/// What `remove_clause` applied `k` times makes of a variable.
pub open spec fn clause_removed_times(
    m: (Seq<ClauseID>, Seq<ClauseID>, bool),
    id: ClauseID,
    k: nat,
) -> (Seq<ClauseID>, Seq<ClauseID>, bool)
    decreases k,
{
    if k == 0 {
        m
    } else {
        clause_removed(clause_removed_times(m, id, (k - 1) as nat), id)
    }
}

/// Adds `e` to a list of clause IDs, unless it holds it already.
fn add_occ(occ: &mut Vec<ClauseID>, e: ClauseID)
    ensures
        final(occ)@ == add_once(old(occ)@, e),
{
    let n = occ.len();
    let mut i: usize = 0;
    while i < n
        invariant
            n == occ@.len(),
            occ@ == old(occ)@,
            i <= n,
            forall|k: int| 0 <= k < i ==> occ@[k] != e,
        decreases n - i,
    {
        if occ[i] == e {
            return;
        }
        i = i + 1;
    }
    occ.push(e);
}

impl Var {
    pub fn new() -> (r: Var)
        ensures
            r.pos_occ@.len() == 0,
            r.neg_occ@.len() == 0,
            r.active,
    {
        Var { pos_occ: Vec::new(), neg_occ: Vec::new(), active: true }
    }

    /// Records a positive occurrence in a clause, once.
    pub fn add_pos_occ(&mut self, clause_id: ClauseID)
        ensures
            final(self).pos_occ@ == add_once(old(self).pos_occ@, clause_id),
            final(self).neg_occ == old(self).neg_occ,
            final(self).active == old(self).active,
    {
        add_occ(&mut self.pos_occ, clause_id);
    }

    /// Records a negative occurrence in a clause, once.
    pub fn add_neg_occ(&mut self, clause_id: ClauseID)
        ensures
            final(self).neg_occ@ == add_once(old(self).neg_occ@, clause_id),
            final(self).pos_occ == old(self).pos_occ,
            final(self).active == old(self).active,
    {
        add_occ(&mut self.neg_occ, clause_id);
    }

    /// Forgets one occurrence of a clause in each list; a variable that no longer occurs
    /// anywhere becomes inactive.
    pub fn remove_clause(&mut self, clause_id: ClauseID)
        ensures
            var_model(*final(self)) == clause_removed(var_model(*old(self)), clause_id),
    {
        remove_element(&mut self.pos_occ, clause_id);
        remove_element(&mut self.neg_occ, clause_id);
        if self.pos_occ.len() == 0 && self.neg_occ.len() == 0 {
            self.active = false;
        }
    }
}

} // verus!
