use smallvec::SmallVec;
use vstd::prelude::*;

verus! {

/// The identifier of a variable; variables are numbered from 1.
pub type VariableId = u32;

/// A literal in DIMACS style: `v` for the variable `v`, `-v` for its negation.
pub type Literal = i32;

/// A literal is well formed when it names a variable, that is, it is neither 0 nor `i32::MIN`.
pub open spec fn lit_ok(l: i32) -> bool {
    l != 0 && l != i32::MIN
}

/// The variable a literal speaks of.
pub open spec fn var_of(l: i32) -> int {
    if l < 0 {
        -l
    } else {
        l as int
    }
}

/// The value of a literal under a partial assignment; `a[v - 1]` holds the value of variable `v`.
pub open spec fn lit_value(a: Seq<Option<bool>>, l: i32) -> Option<bool> {
    match a[var_of(l) - 1] {
        Some(b) => Some(b == (l > 0)),
        None => None,
    }
}

pub open spec fn lit_true(a: Seq<Option<bool>>, l: i32) -> bool {
    lit_value(a, l) == Some(true)
}

pub open spec fn lit_false(a: Seq<Option<bool>>, l: i32) -> bool {
    lit_value(a, l) == Some(false)
}

pub open spec fn lit_unassigned(a: Seq<Option<bool>>, l: i32) -> bool {
    lit_value(a, l) is None
}

/// Some literal of the clause is true.
pub open spec fn clause_satisfied(a: Seq<Option<bool>>, lits: Seq<i32>) -> bool {
    exists|i: int| 0 <= i < lits.len() && lit_true(a, #[trigger] lits[i])
}

/// Every literal of the clause is false.
pub open spec fn clause_falsified(a: Seq<Option<bool>>, lits: Seq<i32>) -> bool {
    forall|i: int| 0 <= i < lits.len() ==> lit_false(a, #[trigger] lits[i])
}

/// The clause is unit on `w`: `w` is unassigned and every other literal is false.
pub open spec fn clause_unit_on(a: Seq<Option<bool>>, lits: Seq<i32>, w: i32) -> bool {
    &&& lits.contains(w)
    &&& lit_unassigned(a, w)
    &&& forall|i: int| 0 <= i < lits.len() && lits[i] != w ==> lit_false(a, #[trigger] lits[i])
}

/// Every literal names a variable in `1..=n`.
pub open spec fn lits_in_range(lits: Seq<i32>, n: int) -> bool {
    forall|i: int| 0 <= i < lits.len() ==> lit_ok(#[trigger] lits[i]) && 1 <= var_of(lits[i]) <= n
}

/// The variable of a literal, as `i32::unsigned_abs` computes it.
pub fn lit_var(l: i32) -> (r: u32)
    ensures
        r as int == var_of(l),
{
    if l < 0 {
        (-(l as i64)) as u32
    } else {
        l as u32
    }
}

/// Whether a literal is positive.
pub fn lit_is_positive(l: i32) -> (r: bool)
    ensures
        r == (l > 0),
{
    l > 0
}

/// The polarity of a literal.
#[derive(Debug, PartialEq, Eq, Structural, Clone, Copy)]
pub enum Polarity {
    Positive,
    Negative,
}

impl Polarity {
    /// Returns the satisfying assignment value for a literal.
    /// E.g. for a literal `-3`, the variable `3` needs to be assigned `false` to satisfy the literal.
    pub fn get_satisfying_assignment(&self) -> (r: bool)
        ensures
            r == (*self == Polarity::Positive),
    {
        self.is_positive()
    }

    /// Reversing a polarity twice gives it back: `q` is what `reverse` makes of `p`, and `r`
    /// what it makes of `q`.
    pub proof fn law_reverse_twice(p: Polarity, q: Polarity, r: Polarity)
        requires
            q != p,
            r != q,
        ensures
            r == p,
    {
    }

    pub fn reverse(&self) -> (r: Polarity)
        ensures
            r != *self,
    {
        match self {
            Polarity::Positive => Polarity::Negative,
            Polarity::Negative => Polarity::Positive,
        }
    }

    pub fn is_positive(&self) -> (r: bool)
        ensures
            r == (*self == Polarity::Positive),
    {
        match self {
            Polarity::Positive => true,
            Polarity::Negative => false,
        }
    }

    pub fn is_negative(&self) -> (r: bool)
        ensures
            r == (*self == Polarity::Negative),
    {
        !self.is_positive()
    }
}

/// The literal of a variable with a polarity.
pub open spec fn signed_lit(v: int, p: Polarity) -> int {
    match p {
        Polarity::Positive => v,
        Polarity::Negative => -v,
    }
}

/// Turns a pair of variable and polarity into a literal.
pub fn to_lit(pair: &(VariableId, Polarity)) -> (r: Literal)
    requires
        pair.0 <= i32::MAX,
    ensures
        r as int == signed_lit(pair.0 as int, pair.1),
{
    let (value, pol) = *pair;
    match pol {
        Polarity::Positive => value as i32,
        Polarity::Negative => -(value as i32),
    }
}

/// Removes adjacent duplicates, keeping the first of each run.
pub open spec fn dedup_seq(s: Seq<i32>) -> Seq<i32>
    decreases s.len(),
{
    if s.len() <= 1 {
        s
    } else if s.last() == s[s.len() - 2] {
        dedup_seq(s.drop_last())
    } else {
        dedup_seq(s.drop_last()).push(s.last())
    }
}

pub open spec fn sorted_le(s: Seq<i32>) -> bool {
    forall|i: int, j: int| 0 <= i <= j < s.len() ==> s[i] <= s[j]
}

pub open spec fn sorted_lt(s: Seq<i32>) -> bool {
    forall|i: int, j: int| 0 <= i < j < s.len() ==> s[i] < s[j]
}

/// What a `Literals` holds, in order.
pub uninterp spec fn literals_items(l: Literals) -> Seq<i32>;

/// A set of literals. We do not expect very large clauses, therefore a small vector
/// should beat a hash set. The vector lives in a field that only the methods below touch.
#[verifier::external_body]
#[derive(Debug, PartialEq)]
pub struct Literals(SmallVec<[Literal; 6]>);

impl View for Literals {
    type V = Seq<i32>;

    open spec fn view(&self) -> Seq<i32> {
        literals_items(*self)
    }
}

impl Clone for Literals {
    /// Copies the literals (`SmallVec::clone`); the copy holds the same literals in the same order.
    #[verifier::external_body]
    fn clone(&self) -> (r: Self)
        ensures
            literals_items(r) == literals_items(*self),
    {
        Literals(self.0.clone())
    }
}

/// Whether the literal speaks of another variable than `var`.
pub fn lit_var_differs(lit: i32, var: VariableId) -> (r: bool)
    ensures
        r == (var_of(lit) != var as int),
{
    lit_var(lit) != var
}

impl Literals {
    /// An empty set of literals (`SmallVec::new`).
    #[verifier::external_body]
    pub fn new() -> (r: Literals)
        ensures
            literals_items(r) == Seq::<i32>::empty(),
    {
        Literals(SmallVec::new())
    }

    /// The literals of a vector, in its order (`SmallVec::from_vec`).
    #[verifier::external_body]
    pub fn from_vec(v: Vec<Literal>) -> (r: Literals)
        ensures
            literals_items(r) == v@,
    {
        Literals(SmallVec::from_vec(v))
    }

    /// Appends the literals in decimal, one space between two of them.
    pub(crate) fn push_text(&self, s: &mut String)
        ensures
            final(s)@ == old(s)@ + crate::text::ints_text(literals_items(*self)),
    {
        let ghost s0 = s@;
        let ghost l = literals_items(*self);
        let n = self.len();
        let mut i: usize = 0;
        assert(l.take(0) =~= Seq::<i32>::empty());
        while i < n
            invariant
                n == l.len(),
                l == literals_items(*self),
                i <= n,
                s@ == s0 + crate::text::ints_text(l.take(i as int)),
            decreases n - i,
        {
            let ghost before = s@;
            if i > 0 {
                crate::text::push_char(s, ' ');
            }
            crate::text::push_int(s, self.get(i));
            proof {
                let t1 = l.take(i + 1);
                assert(t1.drop_last() =~= l.take(i as int));
                assert(t1.last() == l[i as int]);
                if i == 0 {
                    assert(crate::text::ints_text(t1) == crate::text::int_text(t1[0] as int));
                    assert(s@ =~= s0 + crate::text::ints_text(t1));
                } else {
                    assert(crate::text::ints_text(t1) == crate::text::ints_text(l.take(i as int)) + seq![' ']
                        + crate::text::int_text(l[i as int] as int));
                    assert(s@ =~= s0 + crate::text::ints_text(t1));
                }
            }
            i = i + 1;
        }
        assert(l.take(n as int) =~= l);
    }

    /// The literals in decimal, one space between two of them.
    pub fn to_string(&self) -> (r: String)
        ensures
            r@ == crate::text::ints_text(literals_items(*self)),
    {
        let mut s = String::new();
        self.push_text(&mut s);
        assert(s@ =~= crate::text::ints_text(literals_items(*self)));
        s
    }

    /// The number of literals (`SmallVec::len`).
    #[verifier::external_body]
    pub fn len(&self) -> (r: usize)
        ensures
            r == literals_items(*self).len(),
    {
        self.0.len()
    }

    /// The literal at a position (indexing of `SmallVec`).
    #[verifier::external_body]
    pub fn get(&self, i: usize) -> (r: Literal)
        requires
            i < literals_items(*self).len(),
        ensures
            r == literals_items(*self)[i as int],
    {
        self.0[i]
    }

    /// Appends a literal (`SmallVec::push`).
    #[verifier::external_body]
    pub fn push(&mut self, lit: Literal)
        ensures
            literals_items(*final(self)) == literals_items(*old(self)).push(lit),
    {
        self.0.push(lit)
    }

    /// Appends all literals of `other` (`SmallVec::extend`).
    #[verifier::external_body]
    pub fn extend_from(&mut self, other: &Literals)
        ensures
            literals_items(*final(self)) == literals_items(*old(self)) + literals_items(*other),
    {
        self.0.extend(other.0.iter().cloned())
    }

    /// Sorts the literals in ascending order (`slice::sort` through the vector's slice).
    #[verifier::external_body]
    pub fn sort(&mut self)
        ensures
            sorted_le(literals_items(*final(self))),
            literals_items(*final(self)).to_multiset() == literals_items(*old(self)).to_multiset(),
    {
        self.0.sort()
    }

    /// Removes adjacent duplicates (`SmallVec::dedup`).
    #[verifier::external_body]
    pub fn dedup(&mut self)
        ensures
            literals_items(*final(self)) == dedup_seq(literals_items(*old(self))),
    {
        self.0.dedup()
    }

    /// Keeps the literals of other variables than `var` (`SmallVec::retain`).
    #[verifier::external_body]
    pub fn remove(&mut self, var: VariableId)
        ensures
            literals_items(*final(self)) == literals_items(*old(self)).filter(|l: i32| var_of(l) != var as int),
    {
        self.0.retain(|literal: &mut i32| lit_var_differs(*literal, var))
    }

    /// The literals as pairs of variable and polarity, in order.
    pub fn iter(&self) -> (r: Vec<(VariableId, Polarity)>)
        ensures
            r@.len() == self@.len(),
            forall|i: int|
                0 <= i < r@.len() ==> (#[trigger] r@[i]).0 as int == var_of(self@[i]) && (r@[i].1
                    == Polarity::Positive) == (self@[i] > 0),
    {
        let mut r: Vec<(VariableId, Polarity)> = Vec::new();
        let n = self.len();
        let mut i: usize = 0;
        while i < n
            invariant
                n == self@.len(),
                i <= n,
                r@.len() == i,
                forall|k: int|
                    0 <= k < i ==> (#[trigger] r@[k]).0 as int == var_of(self@[k]) && (r@[k].1
                        == Polarity::Positive) == (self@[k] > 0),
            decreases n - i,
        {
            let x = self.get(i);
            if x > 0 {
                r.push((lit_var(x), Polarity::Positive));
            } else {
                r.push((lit_var(x), Polarity::Negative));
            }
            i = i + 1;
        }
        r
    }

    /// Adds the literal of `var` with `polarity`.
    pub fn insert(&mut self, var: VariableId, polarity: Polarity)
        requires
            var <= i32::MAX,
        ensures
            final(self)@ == old(self)@.push(signed_lit(var as int, polarity) as i32),
    {
        let var = var as i32;
        let var = match polarity {
            Polarity::Positive => var,
            Polarity::Negative => -var,
        };
        self.push(var);
    }

    /// The sorted union of two sets of literals, without repetitions.
    pub fn combine(a: &Literals, b: &Literals) -> (r: Literals)
        ensures
            sorted_lt(r@),
            r@.to_set() == a@.to_set() + b@.to_set(),
    {
        let mut combined = Literals::new();
        combined.extend_from(a);
        combined.extend_from(b);
        let ghost joined = combined@;
        combined.sort();
        let ghost sorted = combined@;
        combined.dedup();
        proof {
            lemma_dedup_sorted(sorted);
            lemma_dedup_set(sorted);
            lemma_multiset_same_set(sorted, joined);
            assert(joined =~= (Seq::<i32>::empty() + a@) + b@);
            assert(joined.to_set() =~= a@.to_set() + b@.to_set()) by {
                assert forall|x: i32| joined.to_set().contains(x) <==> (a@.to_set() + b@.to_set()).contains(x) by {
                    if joined.contains(x) {
                        let k = choose|k: int| 0 <= k < joined.len() && joined[k] == x;
                        if k < a@.len() {
                            assert(a@[k] == x);
                        } else {
                            assert(b@[k - a@.len()] == x);
                        }
                    }
                    if a@.contains(x) {
                        let k = choose|k: int| 0 <= k < a@.len() && a@[k] == x;
                        assert(joined[k] == x);
                    }
                    if b@.contains(x) {
                        let k = choose|k: int| 0 <= k < b@.len() && b@[k] == x;
                        assert(joined[a@.len() + k] == x);
                    }
                }
            }
        }
        combined
    }
}

/// Two sequences with the same multiset hold the same elements.
pub proof fn lemma_multiset_same_set(s: Seq<i32>, t: Seq<i32>)
    requires
        s.to_multiset() == t.to_multiset(),
    ensures
        s.to_set() == t.to_set(),
{
    assert forall|x: i32| s.to_set().contains(x) <==> t.to_set().contains(x) by {
        vstd::seq_lib::to_multiset_contains(s, x);
        vstd::seq_lib::to_multiset_contains(t, x);
    }
    assert(s.to_set() =~= t.to_set());
}

/// Removing adjacent duplicates keeps the set of elements.
pub proof fn lemma_dedup_set(s: Seq<i32>)
    ensures
        dedup_seq(s).to_set() == s.to_set(),
        s.len() > 0 ==> dedup_seq(s).len() > 0 && dedup_seq(s).last() == s.last(),
    decreases s.len(),
{
    if s.len() <= 1 {
    } else {
        let p = s.drop_last();
        lemma_dedup_set(p);
        assert forall|x: i32| dedup_seq(s).to_set().contains(x) <==> s.to_set().contains(x) by {
            assert(s =~= p.push(s.last()));
            if s.contains(x) {
                let k = choose|k: int| 0 <= k < s.len() && s[k] == x;
                if k < p.len() {
                    assert(p[k] == x);
                    assert(p.to_set().contains(x));
                }
            }
            if p.contains(x) {
                let k = choose|k: int| 0 <= k < p.len() && p[k] == x;
                assert(s[k] == x);
            }
            if dedup_seq(p).to_set().contains(x) {
                assert(dedup_seq(p).contains(x));
            }
            if s.last() == s[s.len() - 2] {
                assert(p.last() == s.last());
                assert(p[p.len() - 1] == s.last());
            } else {
                let d = dedup_seq(p);
                if d.push(s.last()).contains(x) {
                    let k = choose|k: int| 0 <= k < d.len() + 1 && d.push(s.last())[k] == x;
                    if k < d.len() {
                        assert(d[k] == x);
                        assert(d.to_set().contains(x));
                    }
                }
                if d.contains(x) {
                    let k = choose|k: int| 0 <= k < d.len() && d[k] == x;
                    assert(d.push(s.last())[k] == x);
                }
                assert(d.push(s.last())[d.len() as int] == s.last());
            }
        }
        assert(dedup_seq(s).to_set() =~= s.to_set());
    }
}

/// Removing adjacent duplicates of an ascending sequence gives a strictly ascending one.
pub proof fn lemma_dedup_sorted(s: Seq<i32>)
    requires
        sorted_le(s),
    ensures
        sorted_lt(dedup_seq(s)),
        forall|i: int| 0 <= i < dedup_seq(s).len() ==> dedup_seq(s)[i] <= s.last(),
    decreases s.len(),
{
    if s.len() <= 1 {
    } else {
        let p = s.drop_last();
        assert(sorted_le(p));
        lemma_dedup_sorted(p);
        lemma_dedup_set(p);
        let d = dedup_seq(p);
        assert(p.last() == s[s.len() - 2]);
        if s.last() == s[s.len() - 2] {
        } else {
            assert(s[s.len() - 2] < s.last());
            assert forall|i: int, j: int| 0 <= i < j < d.push(s.last()).len() implies d.push(
                s.last(),
            )[i] < d.push(s.last())[j] by {
                if j == d.len() {
                    assert(d[i] <= p.last());
                }
            }
        }
    }
}

} // verus!
