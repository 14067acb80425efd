use vstd::prelude::*;
use vstd::std_specs::cmp::PartialEqSpec;

verus! {

/// The position of the first element equal to `e`, if there is one.
pub open spec fn first_position<T: PartialEq>(s: Seq<T>, e: T) -> Option<int> {
    if exists|i: int| 0 <= i < s.len() && s[i].eq_spec(&e) {
        Some(choose|i: int| 0 <= i < s.len() && s[i].eq_spec(&e) && forall|k: int| 0 <= k < i ==> !s[k].eq_spec(&e))
    } else {
        None
    }
}

/// The elements of `s` without repetitions, each where it first occurs.
pub open spec fn distinct<T>(s: Seq<T>) -> Seq<T>
    decreases s.len(),
{
    if s.len() == 0 {
        Seq::empty()
    } else {
        let d = distinct(s.drop_last());
        if d.contains(s.last()) {
            d
        } else {
            d.push(s.last())
        }
    }
}

/// Without repetitions a sequence is no longer, holds only its elements, and holds each once.
pub proof fn lemma_distinct<T>(s: Seq<T>)
    ensures
        distinct(s).len() <= s.len(),
        distinct(s).no_duplicates(),
        forall|x: T| distinct(s).contains(x) <==> s.contains(x),
    decreases s.len(),
{
    if s.len() > 0 {
        let t = s.drop_last();
        lemma_distinct(t);
        let d = distinct(t);
        assert forall|x: T| distinct(s).contains(x) <==> s.contains(x) by {
            assert(s == t.push(s.last()));
            if x == s.last() {
                assert(s[s.len() - 1] == x);
                if !d.contains(x) {
                    assert(d.push(x)[d.len() as int] == x);
                }
            } else {
                if s.contains(x) {
                    let k = choose|k: int| 0 <= k < s.len() && s[k] == x;
                    assert(k != s.len() - 1);
                    assert(t[k] == x);
                    assert(t.contains(x));
                    assert(d.contains(x));
                    if !d.contains(s.last()) {
                        let k2 = choose|k2: int| 0 <= k2 < d.len() && d[k2] == x;
                        assert(d.push(s.last())[k2] == x);
                    }
                }
                if distinct(s).contains(x) {
                    if !d.contains(s.last()) {
                        let k = choose|k: int| 0 <= k < d.len() + 1 && d.push(s.last())[k] == x;
                        assert(k != d.len());
                        assert(d[k] == x);
                    }
                    assert(d.contains(x));
                    assert(t.contains(x));
                    let k = choose|k: int| 0 <= k < t.len() && t[k] == x;
                    assert(s[k] == x);
                }
            }
        }
        if !d.contains(s.last()) {
            assert forall|i: int, j: int| 0 <= i < j < d.len() + 1 implies d.push(s.last())[i] != d.push(s.last())[j] by {
                if j == d.len() {
                    assert(d[i] == d.push(s.last())[i]);
                }
            }
        }
    }
}

/// An element equal to `e` at `j` means there is a first one.
proof fn lemma_first_exists<T: PartialEq>(s: Seq<T>, e: T, j: int)
    requires
        0 <= j < s.len(),
        s[j].eq_spec(&e),
    ensures
        exists|i: int| 0 <= i < s.len() && s[i].eq_spec(&e) && forall|k: int| 0 <= k < i ==> !s[k].eq_spec(&e),
    decreases j,
{
    if exists|k: int| 0 <= k < j && s[k].eq_spec(&e) {
        let k = choose|k: int| 0 <= k < j && s[k].eq_spec(&e);
        lemma_first_exists(s, e, k);
    } else {
        assert(forall|k: int| 0 <= k < j ==> !s[k].eq_spec(&e));
    }
}

/// What `first_position` gives: the first position of an element equal to `e`, or none.
pub proof fn lemma_first_position<T: PartialEq>(s: Seq<T>, e: T)
    ensures
        match first_position(s, e) {
            Some(i) => 0 <= i < s.len() && s[i].eq_spec(&e) && forall|k: int| 0 <= k < i ==> !s[k].eq_spec(&e),
            None => forall|k: int| 0 <= k < s.len() ==> !s[k].eq_spec(&e),
        },
{
    if exists|i: int| 0 <= i < s.len() && s[i].eq_spec(&e) {
        let j = choose|i: int| 0 <= i < s.len() && s[i].eq_spec(&e);
        lemma_first_exists(s, e, j);
    }
}

/// `s` without its first element equal to `e`, the last element moved into its place.
pub open spec fn without_first<T: PartialEq>(s: Seq<T>, e: T) -> Seq<T> {
    match first_position(s, e) {
        Some(i) => s.update(i, s.last()).drop_last(),
        None => s,
    }
}

/// Removes the first element equal to `e`, moving the last element into its place, and returns
/// it; `None`, with nothing changed, where there is none. (Said for element types whose `==`
/// is the equality of their specification.)
pub fn remove_element<T: PartialEq>(vs: &mut Vec<T>, e: T) -> (r: Option<T>)
    ensures
        T::obeys_eq_spec() ==> match first_position(old(vs)@, e) {
            Some(i) => r == Some(old(vs)@[i]) && final(vs)@ == old(vs)@.update(i, old(vs)@.last()).drop_last(),
            None => r is None && final(vs)@ == old(vs)@,
        },
{
    let n = vs.len();
    let mut i: usize = 0;
    while i < n
        invariant
            n == vs@.len(),
            vs@ == old(vs)@,
            i <= n,
            T::obeys_eq_spec() ==> forall|k: int| 0 <= k < i ==> !vs@[k].eq_spec(&e),
        decreases n - i,
    {
        if vs[i] == e {
            proof {
                if T::obeys_eq_spec() {
                    let s = old(vs)@;
                    assert(s[i as int].eq_spec(&e));
                    let j = choose|j: int| 0 <= j < s.len() && s[j].eq_spec(&e) && forall|k: int| 0 <= k < j ==> !s[k].eq_spec(&e);
                    if j < i {
                    } else if j > i {
                    }
                    assert(j == i);
                }
            }
            return Some(vs.swap_remove(i));
        }
        i = i + 1;
    }
    None
}

} // verus!
