use crate::preprocess::cnf::lit::{hash1_spec, Lit};
use vstd::prelude::*;

verus! {

pub type ClauseID = u32;

/// A clause of the preprocessor: its literals, a bloom-filter signature of them, and whether
/// it still belongs to the formula.
#[derive(Debug, PartialEq, Clone)]
pub struct Clause {
    pub lits: Vec<Lit>,
    pub sig: u128,
    pub active: bool,
}

/// The signature of literals: the bit `hash1` of each literal set.
pub open spec fn signature(lits: Seq<Lit>) -> u128
    decreases lits.len(),
{
    if lits.len() == 0 {
        0
    } else {
        signature(lits.drop_last()) | (1u128 << hash1_spec(lits.last()))
    }
}

impl Clause {
    pub fn new(lits: Vec<Lit>) -> (r: Self)
        ensures
            r.lits@ == lits@,
            r.sig == signature(lits@),
            r.active,
    {
        let mut sig: u128 = 0;
        let mut i: usize = 0;
        while i < lits.len()
            invariant
                i <= lits@.len(),
                sig == signature(lits@.take(i as int)),
            decreases lits@.len() - i,
        {
            let h1 = lits[i].hash1() as u32;
            proof {
                assert(lits@.take(i + 1).drop_last() =~= lits@.take(i as int));
            }
            sig = sig | (1u128 << h1);
            i = i + 1;
        }
        assert(lits@.take(lits@.len() as int) =~= lits@);
        Clause { sig, lits, active: true }
    }
}

} // verus!
