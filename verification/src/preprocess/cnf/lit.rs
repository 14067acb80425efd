use crate::cnf::literals::var_of;
use crate::preprocess::cnf::var::VarId;
use vstd::prelude::*;

verus! {

/// A literal of the preprocessor: `v` for the variable `v`, `-v` for its negation.
#[derive(Debug, Eq, Clone, Copy, Hash)]
pub struct Lit(pub i32);

impl vstd::std_specs::cmp::PartialEqSpecImpl for Lit {
    open spec fn obeys_eq_spec() -> bool {
        true
    }

    open spec fn eq_spec(&self, other: &Lit) -> bool {
        self.0 == other.0
    }
}

impl PartialEq for Lit {
    fn eq(&self, other: &Lit) -> (r: bool) {
        self.0 == other.0
    }
}

/// The MurmurHash3 finaliser `fmix32`.
pub open spec fn mix32_spec(x: u32) -> u32 {
    let a = x ^ (x >> 16u32);
    let b = ((a as int * 0x85eb_ca6b) % 0x1_0000_0000) as u32;
    let c = b ^ (b >> 13u32);
    let d = ((c as int * 0xc2b2_ae35) % 0x1_0000_0000) as u32;
    d ^ (d >> 16u32)
}

/// The MurmurHash3 finaliser `fmix32`, with multiplications that wrap.
fn mix32(x: u32) -> (r: u32)
    ensures
        r == mix32_spec(x),
{
    let mut x = x;
    x = x ^ (x >> 16u32);
    x = x.wrapping_mul(0x85eb_ca6b);
    x = x ^ (x >> 13u32);
    x = x.wrapping_mul(0xc2b2_ae35);
    x = x ^ (x >> 16u32);
    x
}

/// The bloom-filter hash of a literal: the low seven bits of `fmix32` of its bits.
pub open spec fn hash1_spec(l: Lit) -> u8 {
    (mix32_spec(l.0 as u32) & 0x7f) as u8
}

impl Lit {
    pub fn new(lit: i32) -> (r: Lit)
        ensures
            r.0 == lit,
    {
        Lit(lit)
    }

    /// Negating a literal twice gives it back: `m` is what `neg` makes of `l`, and `k` what it
    /// makes of `m`.
    pub proof fn law_neg_twice(l: Lit, m: Lit, k: Lit)
        requires
            l.0 != i32::MIN,
            m.0 == -l.0,
            k.0 == -m.0,
        ensures
            k == l,
    {
    }

    /// The negated literal.
    pub fn neg(self) -> (r: Lit)
        requires
            self.0 != i32::MIN,
        ensures
            r.0 == -self.0,
    {
        Lit::new(-self.0)
    }

    /// Whether the literal is positive; a literal is never 0.
    pub fn pos(self) -> (r: bool)
        requires
            self.0 != 0,
        ensures
            r == (self.0 > 0),
    {
        self.0 > 0
    }

    /// The bloom-filter hash: a number below 128.
    pub fn hash1(self) -> (r: u8)
        ensures
            r == hash1_spec(self),
            r < 128,
    {
        let m = mix32(self.0 as u32);
        assert(m & 0x7f < 128) by (bit_vector);
        (m & 0x7f) as u8
    }

    /// The variable of the literal.
    pub fn var_id(self) -> (r: VarId)
        ensures
            r as int == var_of(self.0),
    {
        crate::cnf::literals::lit_var(self.0)
    }
}

} // verus!
