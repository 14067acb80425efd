use crate::cdcl::heuristics::{RestartHeuristic, SolverStats};
use vstd::arithmetic::power2::{lemma2_to64, lemma_pow2_adds, lemma_pow2_pos, lemma_pow2_strictly_increases, pow2};
use vstd::bits::lemma_usize_shl_is_mul;
use vstd::prelude::*;

verus! {

/// Never restarts.
#[derive(Debug)]
pub struct Never {}

impl RestartHeuristic for Never {
    fn should_restart(&mut self, stats: &SolverStats) -> (r: bool)
        ensures
            !r,
    {
        false
    }
}

/// Restarts once a fixed number of conflicts is reached, at most `max_restarts` times.
#[derive(Debug)]
pub struct FixedIntervalHeuristic {
    pub fixed_restart_policy: usize,
    pub max_restarts: usize,
}

impl RestartHeuristic for FixedIntervalHeuristic {
    fn should_restart(&mut self, stats: &SolverStats) -> (r: bool)
        ensures
            r == (stats.number_of_restarts < old(self).max_restarts && stats.conflict_count
                >= old(self).fixed_restart_policy),
            *final(self) == *old(self),
    {
        stats.number_of_restarts < self.max_restarts && stats.conflict_count >= self.fixed_restart_policy
    }
}


/// The smallest `k`, not below `from`, for which `2^k - 1 >= i`.
pub open spec fn luby_exponent(i: nat, from: nat) -> nat
    decreases i - from,
{
    if from < i && pow2(from) < i + 1 {
        luby_exponent(i, from + 1)
    } else if pow2(from) < i + 1 {
        // unreachable: `2^from >= from + 1 > i`
        from
    } else {
        from
    }
}

/// The Luby sequence: `luby(2^k - 1) = 2^(k-1)`, and `luby(i) = luby(i - 2^(k-1) + 1)` for
/// `2^(k-1) <= i < 2^k - 1`.
pub open spec fn luby_spec(i: nat) -> nat
    decreases i,
{
    if i == 0 {
        0
    } else {
        let k = luby_exponent(i, 1);
        if i + 1 == pow2(k) {
            pow2((k - 1) as nat)
        } else if k >= 2 && pow2((k - 1) as nat) >= 2 && pow2((k - 1) as nat) <= i {
            luby_spec((i + 1 - pow2((k - 1) as nat)) as nat)
        } else {
            0
        }
    }
}

/// `luby_exponent(i, 1)` is the `k` with `2^(k-1) < i + 1 <= 2^k`.
proof fn lemma_luby_exponent_is(i: nat, k: nat)
    requires
        k >= 1,
        pow2((k - 1) as nat) < i + 1 <= pow2(k),
    ensures
        luby_exponent(i, 1) == k,
{
    lemma_luby_exponent(i, 1);
    let e = luby_exponent(i, 1);
    if e < k {
        if e < k - 1 {
            lemma_pow2_strictly_increases(e, (k - 1) as nat);
        }
    } else if e > k {
        if k < e - 1 {
            lemma_pow2_strictly_increases(k, (e - 1) as nat);
        }
    }
}

/// The Luby sequence ends each block with a power of two: its element at position `2^k - 1`
/// is `2^(k-1)`, for every `k >= 1`.
pub proof fn law_luby_block_end(k: nat)
    requires
        k >= 1,
    ensures
        luby_spec((pow2(k) - 1) as nat) == pow2((k - 1) as nat),
{
    lemma_pow2_adds((k - 1) as nat, 1);
    lemma2_to64();
    lemma_pow2_pos((k - 1) as nat);
    let i = (pow2(k) - 1) as nat;
    assert(pow2(k) == 2 * pow2((k - 1) as nat));
    lemma_luby_exponent_is(i, k);
}

/// Inside a block the Luby sequence repeats its start: for `2^(k-1) <= i < 2^k - 1` its
/// element at position `i` is its element at position `i - 2^(k-1) + 1`.
pub proof fn law_luby_repeats(k: nat, i: nat)
    requires
        k >= 1,
        pow2((k - 1) as nat) <= i < pow2(k) - 1,
    ensures
        luby_spec(i) == luby_spec((i + 1 - pow2((k - 1) as nat)) as nat),
{
    lemma_pow2_adds((k - 1) as nat, 1);
    lemma2_to64();
    lemma_pow2_pos((k - 1) as nat);
    assert(pow2(k) == 2 * pow2((k - 1) as nat));
    lemma_luby_exponent_is(i, k);
    if k == 1 {
        assert(pow2(0) == 1);
    } else {
        lemma_pow2_strictly_increases(0, (k - 1) as nat);
    }
}

pub proof fn lemma_pow2_ge(k: nat)
    ensures
        pow2(k) >= k + 1,
    decreases k,
{
    if k > 0 {
        lemma_pow2_ge((k - 1) as nat);
        lemma_pow2_adds((k - 1) as nat, 1);
        lemma2_to64();
    } else {
        lemma2_to64();
    }
}

/// `luby_exponent(i, from)` is the least `k >= from` with `2^k >= i + 1`.
pub proof fn lemma_luby_exponent(i: nat, from: nat)
    requires
        1 <= from,
    ensures
        from <= luby_exponent(i, from),
        pow2(luby_exponent(i, from)) >= i + 1,
        luby_exponent(i, from) > from ==> pow2((luby_exponent(i, from) - 1) as nat) < i + 1,
    decreases i - from,
{
    lemma_pow2_ge(from);
    if from < i && pow2(from) < i + 1 {
        lemma_luby_exponent(i, from + 1);
        if luby_exponent(i, from + 1) == from + 1 {
        }
    }
}

/// Every element of the Luby sequence from position 1 on lies between 1 and its position.
pub proof fn lemma_luby_bounds(i: nat)
    requires
        i >= 1,
    ensures
        1 <= luby_spec(i) <= i,
    decreases i,
{
    let k = luby_exponent(i, 1);
    lemma_luby_exponent(i, 1);
    lemma_pow2_pos((k - 1) as nat);
    if i + 1 == pow2(k) {
        lemma_pow2_adds((k - 1) as nat, 1);
        lemma2_to64();
    } else {
        if k == 1 {
            lemma2_to64();
        }
        assert(k >= 2) by {
            if k == 1 {
                assert(pow2(1) == 2);
            }
        }
        lemma_pow2_strictly_increases(0, (k - 1) as nat);
        lemma2_to64();
        lemma_pow2_adds((k - 1) as nat, 1);
        assert(pow2((k - 1) as nat) <= i);
        lemma_luby_bounds((i + 1 - pow2((k - 1) as nat)) as nat);
    }
}

/// The element at position `i >= 1` of the Luby sequence.
pub fn luby(i: usize) -> (r: usize)
    requires
        1 <= i < 0x4000_0000,
    ensures
        r == luby_spec(i as nat),
    decreases i,
{
    let mut k: usize = 1;
    proof {
        lemma2_to64();
        assert(usize::BITS == 32 || usize::BITS == 64);
        lemma_usize_shl_is_mul(1, 1);
        lemma_luby_exponent(i as nat, 1);
    }
    while (1usize << k) - 1 < i
        invariant
            1 <= k <= 31,
            1 <= i < 0x4000_0000,
            (1usize << k) == pow2(k as nat),
            (1usize << k) >= 2,
            forall|j: nat| 1 <= j < k ==> pow2(j) < i + 1,
            luby_exponent(i as nat, 1) == luby_exponent(i as nat, k as nat),
        decreases 32 - k,
    {
        proof {
            lemma_pow2_ge(k as nat);
            assert(k < 30) by {
                if k >= 30 {
                    lemma_pow2_strictly_increases(29, k as nat);
                    lemma2_to64();
                }
            }
            assert(usize::BITS == 32 || usize::BITS == 64);
            vstd::arithmetic::power2::lemma_pow2_strictly_increases(k as nat, (k + 1) as nat);
            assert(pow2((k + 1) as nat) <= 0x8000_0000) by {
                lemma2_to64();
                if k + 1 < 31 {
                    lemma_pow2_strictly_increases((k + 1) as nat, 31);
                }
            }
            lemma_usize_shl_is_mul(1, (k + 1) as usize);
        }
        k = k + 1;
    }
    proof {
        assert(luby_exponent(i as nat, k as nat) == k as nat);
        lemma_pow2_pos((k - 1) as nat);
        lemma_pow2_adds((k - 1) as nat, 1);
        lemma2_to64();
        assert(usize::BITS == 32 || usize::BITS == 64);
        lemma_usize_shl_is_mul(1, (k - 1) as usize);
        lemma_pow2_strictly_increases((k - 1) as nat, k as nat);
    }
    if i == (1usize << k) - 1 {
        1usize << (k - 1)
    } else {
        proof {
            assert(k >= 2) by {
                if k == 1 {
                    assert(pow2(1) == 2);
                }
            }
            lemma_pow2_strictly_increases(0, (k - 1) as nat);
            assert(pow2((k - 1) as nat) < i + 1);
        }
        luby(i - (1usize << (k - 1)) + 1)
    }
}

/// Restarts while the number of conflicts stays within 32 times the Luby sequence element
/// of the next restart, at most `max_restarts` times.
#[derive(Debug)]
pub struct LubyHeuristic {
    pub(crate) max_restarts: usize,
    pub(crate) luby_seq: Vec<usize>,
}

impl LubyHeuristic {
    /// The most restarts this heuristic allows.
    pub closed spec fn max(&self) -> usize {
        self.max_restarts
    }

    /// The stored prefix of the Luby sequence.
    pub closed spec fn stored(&self) -> Seq<usize> {
        self.luby_seq@
    }

    #[verifier::type_invariant]
    spec fn inv(self) -> bool {
        &&& self.max_restarts < 0x0100_0000
        &&& forall|j: int| 0 <= j < self.luby_seq@.len() ==> self.luby_seq@[j] < 0x0100_0000
    }

    pub fn new(max_restarts: usize) -> (r: LubyHeuristic)
        requires
            max_restarts < 0x0100_0000,
        ensures
            r.max() == max_restarts,
            r.stored().len() == 0,
    {
        LubyHeuristic { max_restarts, luby_seq: Vec::new() }
    }

    /// The `i`-th element of the Luby sequence, taken from the stored prefix where it holds it.
    fn get(&self, i: usize) -> (r: usize)
        requires
            1 <= i <= 0x0100_0000,
        ensures
            i - 1 < self.luby_seq@.len() ==> r == self.luby_seq@[i - 1],
            i - 1 >= self.luby_seq@.len() ==> r == luby_spec(i as nat),
            r <= 0x0100_0000,
    {
        proof {
            use_type_invariant(self);
        }
        if i - 1 < self.luby_seq.len() {
            self.luby_seq[i - 1]
        } else {
            proof {
                lemma_luby_bounds(i as nat);
            }
            luby(i)
        }
    }
}

impl RestartHeuristic for LubyHeuristic {
    fn should_restart(&mut self, stats: &SolverStats) -> (r: bool)
        ensures
            r == (stats.number_of_restarts < old(self).max() && 32 * (if stats.number_of_restarts
                < old(self).stored().len() {
                old(self).stored()[stats.number_of_restarts as int] as nat
            } else {
                luby_spec((stats.number_of_restarts + 1) as nat)
            }) >= stats.conflict_count),
            *final(self) == *old(self),
    {
        proof {
            use_type_invariant(&*self);
        }
        stats.number_of_restarts < self.max_restarts && 32 * self.get(stats.number_of_restarts + 1)
            >= stats.conflict_count
    }
}

} // verus!

