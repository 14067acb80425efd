//! The DIMACS CNF format: comment lines starting with `c`, a header `p cnf <variables>
//! <clauses>`, then the clauses, each a list of non-zero literals ended by `0`.
//!
//! The grammar is read from left to right, and what follows the last clause is not read.
//! Numbers are written without leading zeros and are at most 65535 in absolute value. A
//! comment line ends with a line ending. Literals are separated by spaces and line endings
//! (`\n` or `\r\n`), and at least one of these follows each literal. A clause holds at least
//! one and at most as many literals as the header announces variables.
use crate::cnf::clause::{clause_wf, Clause};
use crate::cnf::cnf_formula::{
    complete_watches, lemma_complete_watches_push, lemma_same_var, lemma_watch_lists_push, non_tautological,
    watch_lists_ok, watch_shape, watches_sound, CnfFormula,
};
use crate::cnf::literals::{lit_var, signed_lit, Literals, Polarity};
use crate::cnf::parser::ParseError;
use crate::cnf::variable::{watch_list, Variables};
use vstd::string::StringSliceAdditionalSpecFns;
use vstd::prelude::*;

verus! {

/// An ASCII digit.
pub open spec fn is_digit(b: u8) -> bool {
    48 <= b <= 57
}

/// The end of the run of digits that starts at `p`.
pub open spec fn digits_end(s: Seq<u8>, p: int) -> int
    decreases s.len() - p,
{
    if 0 <= p < s.len() && is_digit(s[p]) {
        digits_end(s, p + 1)
    } else {
        p
    }
}

/// The number written by the digits from `p` to `e`.
pub open spec fn digits_value(s: Seq<u8>, p: int, e: int) -> int
    decreases e - p,
{
    if e <= p {
        0
    } else {
        digits_value(s, p, e - 1) * 10 + (s[e - 1] - 48)
    }
}

/// A positive number without leading zero of at most 65535, with the position after it.
pub open spec fn pos_number(s: Seq<u8>, p: int) -> Option<(int, int)> {
    if 0 <= p < s.len() && 49 <= s[p] <= 57 {
        let e = digits_end(s, p);
        let v = digits_value(s, p, e);
        if v <= 65535 {
            Some((v, e))
        } else {
            None
        }
    } else {
        None
    }
}

/// A positive number, or one with a leading `-`, with the position after it.
pub open spec fn number(s: Seq<u8>, p: int) -> Option<(int, int)> {
    if 0 <= p < s.len() && s[p] == 45 {
        match pos_number(s, p + 1) {
            Some((v, e)) => Some((-v, e)),
            None => None,
        }
    } else {
        pos_number(s, p)
    }
}

/// One separator at `p`: a space, `\n` or `\r\n`; the position after it.
pub open spec fn separator(s: Seq<u8>, p: int) -> Option<int> {
    if 0 <= p < s.len() && (s[p] == 32 || s[p] == 10) {
        Some(p + 1)
    } else if 0 <= p && p + 1 < s.len() && s[p] == 13 && s[p + 1] == 10 {
        Some(p + 2)
    } else {
        None
    }
}

/// The end of the run of separators that starts at `p`.
pub open spec fn separators_end(s: Seq<u8>, p: int) -> int
    decreases s.len() - p,
{
    match separator(s, p) {
        Some(q) => if q <= s.len() { separators_end(s, q) } else { p },
        None => p,
    }
}

/// The end of the run of white space (space, tab, `\r`, `\n`) that starts at `p`.
pub open spec fn white_space_end(s: Seq<u8>, p: int) -> int
    decreases s.len() - p,
{
    if 0 <= p < s.len() && (s[p] == 32 || s[p] == 9 || s[p] == 13 || s[p] == 10) {
        white_space_end(s, p + 1)
    } else {
        p
    }
}

/// A literal: separators, a number, and at least one separator after it.
pub open spec fn literal(s: Seq<u8>, p: int) -> Option<(int, int)> {
    let a = separators_end(s, p);
    match number(s, a) {
        Some((v, b)) => {
            let c = separators_end(s, b);
            if c > b {
                Some((v, c))
            } else {
                None
            }
        },
        None => None,
    }
}

/// The literals read from `p` on, at most `k` of them, and the position after the last.
pub open spec fn literal_run(s: Seq<u8>, p: int, k: nat) -> (Seq<int>, int)
    decreases k,
{
    if k == 0 {
        (Seq::empty(), p)
    } else {
        match literal(s, p) {
            Some((v, q)) => {
                let (rest, e) = literal_run(s, q, (k - 1) as nat);
                (seq![v] + rest, e)
            },
            None => (Seq::empty(), p),
        }
    }
}

/// A clause over `n` variables: one to `n` literals, then `0`.
pub open spec fn clause(s: Seq<u8>, p: int, n: nat) -> Option<(Seq<int>, int)> {
    let (lits, e) = literal_run(s, p, n);
    if lits.len() >= 1 && 0 <= e < s.len() && s[e] == 48 {
        Some((lits, e + 1))
    } else {
        None
    }
}

/// Exactly `m` clauses over `n` variables.
pub open spec fn clauses(s: Seq<u8>, p: int, n: nat, m: nat) -> Option<(Seq<Seq<int>>, int)>
    decreases m,
{
    if m == 0 {
        Some((Seq::empty(), p))
    } else {
        match clause(s, p, n) {
            Some((c, q)) => match clauses(s, q, n, (m - 1) as nat) {
                Some((cs, e)) => Some((seq![c] + cs, e)),
                None => None,
            },
            None => None,
        }
    }
}


/// The end of the line that goes on at `i`: the first `\n` or `\r` from `i` on, or the end.
pub open spec fn line_end(s: Seq<u8>, i: int) -> int
    decreases s.len() - i,
{
    if 0 <= i < s.len() && s[i] != 10 && s[i] != 13 {
        line_end(s, i + 1)
    } else {
        i
    }
}

/// A comment line at `p`: `c`, the rest of the line, and its line ending (`\n` or `\r\n`).
pub open spec fn comment(s: Seq<u8>, p: int) -> Option<int> {
    if 0 <= p < s.len() && s[p] == 99 {
        let q = line_end(s, p + 1);
        if q < s.len() && s[q] == 10 {
            Some(q + 1)
        } else if q + 1 < s.len() && s[q] == 13 && s[q + 1] == 10 {
            Some(q + 2)
        } else {
            None
        }
    } else {
        None
    }
}

/// The end of the comment lines that start at `p`.
pub open spec fn comments_end(s: Seq<u8>, p: int) -> int
    decreases s.len() - p,
{
    match comment(s, p) {
        Some(q) => if p < q <= s.len() {
            comments_end(s, q)
        } else {
            p
        },
        None => p,
    }
}

/// The header `p cnf <n> <m>` at `p`: the counts of variables and clauses, and the position
/// after it.
pub open spec fn header(s: Seq<u8>, p: int) -> Option<(int, int, int)> {
    if 0 <= p && p + 5 <= s.len() && s[p] == 112 && s[p + 1] == 32 && s[p + 2] == 99 && s[p + 3]
        == 110 && s[p + 4] == 102 {
        let a = white_space_end(s, p + 5);
        if a > p + 5 {
            match pos_number(s, a) {
                Some((n, b)) => {
                    let c = white_space_end(s, b);
                    if c > b {
                        match pos_number(s, c) {
                            Some((m, e)) => Some((n, m, e)),
                            None => None,
                        }
                    } else {
                        None
                    }
                },
                None => None,
            }
        } else {
            None
        }
    } else {
        None
    }
}

/// What a DIMACS text says: its clauses and its header's counts of variables and clauses;
/// `None` where it is not one.
pub open spec fn dimacs(s: Seq<u8>) -> Option<(Seq<Seq<int>>, int, int)> {
    let p = comments_end(s, 0);
    match header(s, p) {
        Some((n, m, q)) => match clauses(s, q, n as nat, m as nat) {
            Some((cs, _)) => Some((cs, n, m)),
            None => None,
        },
        None => None,
    }
}

/// The numbers of a vector of literals, as integers.
pub open spec fn as_ints(v: Seq<i32>) -> Seq<int> {
    v.map_values(|x: i32| x as int)
}

/// The clauses of a vector of clauses, as sequences of integers.
pub open spec fn clauses_as_ints(vs: Seq<Vec<i32>>) -> Seq<Seq<int>> {
    vs.map_values(|v: Vec<i32>| as_ints(v@))
}

/// Some literal of the clause occurs negated in it too.
pub open spec fn is_tautology(c: Seq<int>) -> bool {
    exists|a: int, b: int| 0 <= a < c.len() && 0 <= b < c.len() && c[a] == -c[b]
}

/// The clauses that are not tautologies, in their order.
pub open spec fn without_tautologies(cs: Seq<Seq<int>>) -> Seq<Seq<int>> {
    cs.filter(|c: Seq<int>| !is_tautology(c))
}

/// How often the literal `l` occurs in the clauses.
pub open spec fn literal_count(cs: Seq<Seq<int>>, l: int) -> nat
    decreases cs.len(),
{
    if cs.len() == 0 {
        0
    } else {
        literal_count(cs.drop_last(), l) + count_in(cs.last(), l)
    }
}

/// How often `l` occurs in the clause.
pub open spec fn count_in(c: Seq<int>, l: int) -> nat {
    c.filter(|x: int| x == l).len()
}

/// Every literal of the clauses names one of the variables `1..=n`.
pub open spec fn clauses_within(cs: Seq<Seq<int>>, n: int) -> bool {
    forall|i: int, j: int| 0 <= i < cs.len() && 0 <= j < cs[i].len() ==> -n <= #[trigger] cs[i][j] <= n
}


/// The number written by digits is not negative.
proof fn lemma_digits_value_nonneg(s: Seq<u8>, p: int, e: int)
    requires
        0 <= p,
        e <= s.len(),
        forall|k: int| p <= k < e ==> is_digit(#[trigger] s[k]),
    ensures
        digits_value(s, p, e) >= 0,
    decreases e - p,
{
    if e > p {
        lemma_digits_value_nonneg(s, p, e - 1);
    }
}

/// The digits from `p` to the end of their run are digits.
proof fn lemma_digits_run(s: Seq<u8>, p: int)
    requires
        0 <= p <= s.len(),
    ensures
        p <= digits_end(s, p) <= s.len(),
        forall|k: int| p <= k < digits_end(s, p) ==> is_digit(#[trigger] s[k]),
    decreases s.len() - p,
{
    if p < s.len() && is_digit(s[p]) {
        lemma_digits_run(s, p + 1);
    }
}

/// Digits that start with a non-zero digit write a positive number.
proof fn lemma_digits_value_pos(s: Seq<u8>, p: int, e: int)
    requires
        0 <= p < e <= s.len(),
        49 <= s[p] <= 57,
        forall|k: int| p <= k < e ==> is_digit(#[trigger] s[k]),
    ensures
        digits_value(s, p, e) >= 1,
    decreases e - p,
{
    if e > p + 1 {
        lemma_digits_value_pos(s, p, e - 1);
    } else {
        assert(digits_value(s, p, p) == 0);
    }
}

/// A number of the format is non-zero and at most 65535 in absolute value.
proof fn lemma_number_bounds(s: Seq<u8>, p: int)
    requires
        0 <= p <= s.len(),
    ensures
        number(s, p) matches Some((v, e)) ==> v != 0 && -65535 <= v <= 65535 && p < e <= s.len(),
{
    let a = if 0 <= p < s.len() && s[p] == 45 {
        p + 1
    } else {
        p
    };
    if 0 <= a < s.len() && 49 <= s[a] <= 57 {
        lemma_digits_run(s, a);
        let e = digits_end(s, a);
        assert(e > a) by {
            assert(is_digit(s[a]));
            lemma_digits_run(s, a + 1);
            assert(digits_end(s, a) == digits_end(s, a + 1));
        }
        lemma_digits_value_pos(s, a, e);
    }
}

/// A literal of the format is a non-zero number of at most 65535 in absolute value.
proof fn lemma_literal_bounds(s: Seq<u8>, p: int)
    requires
        0 <= p <= s.len(),
    ensures
        literal(s, p) matches Some((v, e)) ==> v != 0 && -65535 <= v <= 65535 && p < e <= s.len(),
{
    lemma_separators_end(s, p);
    let a = separators_end(s, p);
    lemma_number_bounds(s, a);
    if let Some((v, b)) = number(s, a) {
        lemma_separators_end(s, b);
    }
}

/// The run of separators stays within the text.
proof fn lemma_separators_end(s: Seq<u8>, p: int)
    requires
        0 <= p <= s.len(),
    ensures
        p <= separators_end(s, p) <= s.len(),
    decreases s.len() - p,
{
    if let Some(q) = separator(s, p) {
        if q <= s.len() {
            lemma_separators_end(s, q);
        }
    }
}

/// At most `k` literals are read, each a non-zero number of at most 65535 in absolute value.
proof fn lemma_literal_run(s: Seq<u8>, p: int, k: nat)
    requires
        0 <= p <= s.len(),
    ensures
        literal_run(s, p, k).0.len() <= k,
        forall|j: int|
            0 <= j < literal_run(s, p, k).0.len() ==> #[trigger] literal_run(s, p, k).0[j] != 0
                && -65535 <= literal_run(s, p, k).0[j] <= 65535,
    decreases k,
{
    if k > 0 {
        lemma_literal_bounds(s, p);
        if let Some((v, q)) = literal(s, p) {
            lemma_literal_run(s, q, (k - 1) as nat);
            let rest = literal_run(s, q, (k - 1) as nat).0;
            assert forall|j: int| 0 <= j < literal_run(s, p, k).0.len() implies #[trigger] literal_run(
                s,
                p,
                k,
            ).0[j] != 0 && -65535 <= literal_run(s, p, k).0[j] <= 65535 by {
                if j > 0 {
                    assert(literal_run(s, p, k).0[j] == rest[j - 1]);
                }
            }
        }
    }
}

/// The clauses of the format: as many as announced, each of one to `n` literals, each literal
/// a non-zero number of at most 65535 in absolute value.
pub proof fn lemma_clauses_shape(s: Seq<u8>, p: int, n: nat, m: nat)
    requires
        0 <= p <= s.len(),
    ensures
        clauses(s, p, n, m) matches Some((cs, e)) ==> {
            &&& cs.len() == m
            &&& p <= e <= s.len()
            &&& forall|i: int| 0 <= i < cs.len() ==> 1 <= (#[trigger] cs[i]).len() <= n
            &&& forall|i: int, j: int|
                0 <= i < cs.len() && 0 <= j < cs[i].len() ==> #[trigger] cs[i][j] != 0 && -65535
                    <= cs[i][j] <= 65535
        },
    decreases m,
{
    if m > 0 {
        if let Some((c, q)) = clause(s, p, n) {
            lemma_literal_run(s, p, n);
            let (lits, e0) = literal_run(s, p, n);
            assert(p <= e0 <= s.len()) by {
                lemma_literal_run_end(s, p, n);
            }
            lemma_clauses_shape(s, q, n, (m - 1) as nat);
            if let Some((rest, e)) = clauses(s, q, n, (m - 1) as nat) {
                let cs = seq![c] + rest;
                assert forall|i: int| 0 <= i < cs.len() implies 1 <= (#[trigger] cs[i]).len() <= n by {
                    if i > 0 {
                        assert(cs[i] == rest[i - 1]);
                    }
                }
                assert forall|i: int, j: int|
                    0 <= i < cs.len() && 0 <= j < cs[i].len() implies #[trigger] cs[i][j] != 0 && -65535
                        <= cs[i][j] <= 65535 by {
                    if i > 0 {
                        assert(cs[i] == rest[i - 1]);
                    }
                }
            }
        }
    }
}

/// The literals end within the text, not before where they start.
proof fn lemma_literal_run_end(s: Seq<u8>, p: int, k: nat)
    requires
        0 <= p <= s.len(),
    ensures
        p <= literal_run(s, p, k).1 <= s.len(),
    decreases k,
{
    if k > 0 {
        lemma_literal_bounds(s, p);
        if let Some((v, q)) = literal(s, p) {
            lemma_literal_run_end(s, q, (k - 1) as nat);
        }
    }
}

/// The comment lines end within the text.
proof fn lemma_comments_end(s: Seq<u8>, p: int)
    requires
        0 <= p <= s.len(),
    ensures
        p <= comments_end(s, p) <= s.len(),
    decreases s.len() - p,
{
    if let Some(q) = comment(s, p) {
        if p < q <= s.len() {
            lemma_comments_end(s, q);
        }
    }
}

/// The white space ends within the text.
proof fn lemma_white_space_end(s: Seq<u8>, p: int)
    requires
        0 <= p <= s.len(),
    ensures
        p <= white_space_end(s, p) <= s.len(),
    decreases s.len() - p,
{
    if p < s.len() && (s[p] == 32 || s[p] == 9 || s[p] == 13 || s[p] == 10) {
        lemma_white_space_end(s, p + 1);
    }
}

/// A positive number of the format lies in `1..=65535` and ends within the text.
proof fn lemma_pos_number_bounds(s: Seq<u8>, p: int)
    requires
        0 <= p <= s.len(),
    ensures
        pos_number(s, p) matches Some((v, e)) ==> 1 <= v <= 65535 && p < e <= s.len(),
{
    if 0 <= p < s.len() && 49 <= s[p] <= 57 {
        lemma_digits_run(s, p);
        let e = digits_end(s, p);
        assert(e > p) by {
            lemma_digits_run(s, p + 1);
            assert(digits_end(s, p) == digits_end(s, p + 1));
        }
        lemma_digits_value_pos(s, p, e);
    }
}

/// What a DIMACS text holds: counts in `1..=65535`, as many clauses as announced, each of one
/// to `n` literals, each a non-zero number of at most 65535 in absolute value.
pub proof fn lemma_dimacs_shape(s: Seq<u8>)
    ensures
        dimacs(s) matches Some((cs, n, m)) ==> {
            &&& 1 <= n <= 65535
            &&& 1 <= m <= 65535
            &&& cs.len() == m
            &&& forall|i: int| 0 <= i < cs.len() ==> 1 <= (#[trigger] cs[i]).len() <= n
            &&& forall|i: int, j: int|
                0 <= i < cs.len() && 0 <= j < cs[i].len() ==> #[trigger] cs[i][j] != 0 && -65535
                    <= cs[i][j] <= 65535
        },
{
    lemma_comments_end(s, 0);
    let p = comments_end(s, 0);
    if let Some((n, m, q)) = header(s, p) {
        let a = white_space_end(s, p + 5);
        lemma_white_space_end(s, p + 5);
        lemma_pos_number_bounds(s, a);
        if let Some((_, b)) = pos_number(s, a) {
            lemma_white_space_end(s, b);
            let c = white_space_end(s, b);
            lemma_pos_number_bounds(s, c);
            lemma_clauses_shape(s, q, n as nat, m as nat);
        }
    }
}

/// Counting over one more clause adds its occurrences.
pub(crate) proof fn lemma_literal_count_push(cs: Seq<Seq<int>>, c: Seq<int>, l: int)
    ensures
        literal_count(cs.push(c), l) == literal_count(cs, l) + count_in(c, l),
{
    assert(cs.push(c).drop_last() =~= cs);
    assert(cs.push(c).last() == c);
}

/// A literal occurs at most 65535 times per clause of at most 65535 literals.
proof fn lemma_literal_count_bound(cs: Seq<Seq<int>>, l: int)
    requires
        forall|i: int| 0 <= i < cs.len() ==> (#[trigger] cs[i]).len() <= 65535,
    ensures
        literal_count(cs, l) <= cs.len() * 65535,
    decreases cs.len(),
{
    if cs.len() > 0 {
        lemma_literal_count_bound(cs.drop_last(), l);
        cs.last().lemma_filter_len(|x: int| x == l);
        assert(cs.last() == cs[cs.len() - 1]);
    }
}

/// Filtering one more element of a sequence.
proof fn lemma_filter_take(cs: Seq<Seq<int>>, i: int)
    requires
        0 <= i < cs.len(),
    ensures
        without_tautologies(cs.take(i + 1)) == if is_tautology(cs[i]) {
            without_tautologies(cs.take(i))
        } else {
            without_tautologies(cs.take(i)).push(cs[i])
        },
{
    assert(cs.take(i + 1) =~= cs.take(i).push(cs[i]));
    cs.take(i).lemma_filter_push(cs[i], |c: Seq<int>| !is_tautology(c));
}

/// Reads a positive number at `p`, as `pos_number` does.
fn read_pos_number(s: &[u8], p: usize) -> (r: Option<(u16, usize)>)
    requires
        p <= s@.len(),
    ensures
        match r {
            Some((v, e)) => pos_number(s@, p as int) == Some((v as int, e as int)) && p < e <= s@.len(),
            None => pos_number(s@, p as int) is None,
        },
{
    if p < s.len() && 49 <= s[p] && s[p] <= 57 {
        let mut e = p;
        let mut acc: u32 = 0;
        while e < s.len() && 48 <= s[e] && s[e] <= 57
            invariant
                p <= e <= s@.len(),
                digits_end(s@, p as int) == digits_end(s@, e as int),
                forall|k: int| p <= k < e ==> is_digit(#[trigger] s@[k]),
                acc <= 65536,
                acc == if digits_value(s@, p as int, e as int) > 65536 {
                    65536
                } else {
                    digits_value(s@, p as int, e as int)
                },
            decreases s@.len() - e,
        {
            let d = (s[e] - 48) as u32;
            proof {
                lemma_digits_value_nonneg(s@, p as int, e as int);
                assert(digits_value(s@, p as int, e + 1) == digits_value(s@, p as int, e as int) * 10
                    + d);
            }
            acc = if acc * 10 + d > 65536 {
                65536
            } else {
                acc * 10 + d
            };
            e = e + 1;
        }
        if acc <= 65535 {
            Some((acc as u16, e))
        } else {
            None
        }
    } else {
        None
    }
}

/// Reads a number at `p`, as `number` does.
fn read_number(s: &[u8], p: usize) -> (r: Option<(i32, usize)>)
    requires
        p <= s@.len(),
    ensures
        match r {
            Some((v, e)) => number(s@, p as int) == Some((v as int, e as int)) && p < e <= s@.len(),
            None => number(s@, p as int) is None,
        },
{
    if p < s.len() && s[p] == 45 {
        match read_pos_number(s, p + 1) {
            Some((v, e)) => Some((-(v as i32), e)),
            None => None,
        }
    } else {
        match read_pos_number(s, p) {
            Some((v, e)) => Some((v as i32, e)),
            None => None,
        }
    }
}

/// The end of the run of separators from `p`, as `separators_end` gives it.
fn skip_separators(s: &[u8], p: usize) -> (r: usize)
    requires
        p <= s@.len(),
    ensures
        r as int == separators_end(s@, p as int),
        p <= r <= s@.len(),
{
    let mut q = p;
    loop
        invariant
            p <= q <= s@.len(),
            separators_end(s@, p as int) == separators_end(s@, q as int),
        decreases s@.len() - q,
    {
        if q < s.len() && (s[q] == 32 || s[q] == 10) {
            q = q + 1;
        } else if q < s.len() && s[q] == 13 && q + 1 < s.len() && s[q + 1] == 10 {
            q = q + 2;
        } else {
            return q;
        }
    }
}

/// The end of the run of white space from `p`, as `white_space_end` gives it.
fn skip_white_space(s: &[u8], p: usize) -> (r: usize)
    requires
        p <= s@.len(),
    ensures
        r as int == white_space_end(s@, p as int),
        p <= r <= s@.len(),
{
    let mut q = p;
    while q < s.len() && (s[q] == 32 || s[q] == 9 || s[q] == 13 || s[q] == 10)
        invariant
            p <= q <= s@.len(),
            white_space_end(s@, p as int) == white_space_end(s@, q as int),
        decreases s@.len() - q,
    {
        q = q + 1;
    }
    q
}

/// Reads a literal at `p`, as `literal` does.
fn read_literal(s: &[u8], p: usize) -> (r: Option<(i32, usize)>)
    requires
        p <= s@.len(),
    ensures
        match r {
            Some((v, e)) => literal(s@, p as int) == Some((v as int, e as int)) && p < e <= s@.len(),
            None => literal(s@, p as int) is None,
        },
{
    let a = skip_separators(s, p);
    match read_number(s, a) {
        Some((v, b)) => {
            let c = skip_separators(s, b);
            if c > b {
                Some((v, c))
            } else {
                None
            }
        },
        None => None,
    }
}


/// Reads a clause at `p` over `n` variables, as `clause` does.
fn read_clause(s: &[u8], p: usize, n: u16) -> (r: Option<(Vec<i32>, usize)>)
    requires
        p <= s@.len(),
    ensures
        match r {
            Some((v, e)) => clause(s@, p as int, n as nat) == Some((as_ints(v@), e as int)) && p < e
                <= s@.len(),
            None => clause(s@, p as int, n as nat) is None,
        },
{
    let mut lits: Vec<i32> = Vec::new();
    let mut q = p;
    let mut k: u16 = 0;
    loop
        invariant
            p <= q <= s@.len(),
            k <= n,
            literal_run(s@, p as int, n as nat).0 == as_ints(lits@) + literal_run(
                s@,
                q as int,
                (n - k) as nat,
            ).0,
            literal_run(s@, p as int, n as nat).1 == literal_run(s@, q as int, (n - k) as nat).1,
        ensures
            p <= q <= s@.len(),
            literal_run(s@, p as int, n as nat) == (as_ints(lits@), q as int),
        decreases n - k,
    {
        if k == n {
            assert(as_ints(lits@) + Seq::<int>::empty() =~= as_ints(lits@));
            break;
        }
        match read_literal(s, q) {
            Some((v, e)) => {
                let ghost before = as_ints(lits@);
                lits.push(v);
                proof {
                    let rest = literal_run(s@, e as int, (n - k - 1) as nat);
                    assert(as_ints(lits@) =~= before.push(v as int));
                    assert(before + (seq![v as int] + rest.0) =~= as_ints(lits@) + rest.0);
                }
                q = e;
                k = k + 1;
            },
            None => {
                assert(as_ints(lits@) + Seq::<int>::empty() =~= as_ints(lits@));
                break;
            },
        }
    }
    if lits.len() >= 1 && q < s.len() && s[q] == 48 {
        Some((lits, q + 1))
    } else {
        None
    }
}

/// Reads `m` clauses at `p` over `n` variables, as `clauses` does.
fn read_clauses(s: &[u8], p: usize, n: u16, m: u16) -> (r: Option<(Vec<Vec<i32>>, usize)>)
    requires
        p <= s@.len(),
    ensures
        match r {
            Some((vs, e)) => clauses(s@, p as int, n as nat, m as nat) == Some(
                (clauses_as_ints(vs@), e as int),
            ),
            None => clauses(s@, p as int, n as nat, m as nat) is None,
        },
{
    let mut vs: Vec<Vec<i32>> = Vec::new();
    let mut q = p;
    let mut k: u16 = 0;
    while k < m
        invariant
            p <= q <= s@.len(),
            k <= m,
            clauses(s@, p as int, n as nat, m as nat) == match clauses(
                s@,
                q as int,
                n as nat,
                (m - k) as nat,
            ) {
                Some((cs, e)) => Some((clauses_as_ints(vs@) + cs, e)),
                None => None,
            },
        decreases m - k,
    {
        match read_clause(s, q, n) {
            Some((c, e)) => {
                let ghost before = clauses_as_ints(vs@);
                vs.push(c);
                proof {
                    assert(clauses_as_ints(vs@) =~= before.push(as_ints(c@)));
                    match clauses(s@, e as int, n as nat, (m - k - 1) as nat) {
                        Some((cs, _)) => {
                            assert(before + (seq![as_ints(c@)] + cs) =~= clauses_as_ints(vs@) + cs);
                        },
                        None => {},
                    }
                }
                q = e;
                k = k + 1;
            },
            None => {
                return None;
            },
        }
    }
    assert(clauses_as_ints(vs@) + Seq::<Seq<int>>::empty() =~= clauses_as_ints(vs@));
    Some((vs, q))
}

/// The end of the comment lines from `p`, as `comments_end` gives it.
fn skip_comments(s: &[u8], p: usize) -> (r: usize)
    requires
        p <= s@.len(),
    ensures
        r as int == comments_end(s@, p as int),
        r <= s@.len(),
{
    let mut q = p;
    loop
        invariant
            q <= s@.len(),
            comments_end(s@, p as int) == comments_end(s@, q as int),
        decreases s@.len() - q,
    {
        if !(q < s.len() && s[q] == 99) {
            return q;
        }
        let mut e = q + 1;
        while e < s.len() && s[e] != 10 && s[e] != 13
            invariant
                q < e <= s@.len(),
                line_end(s@, q + 1) == line_end(s@, e as int),
            decreases s@.len() - e,
        {
            e = e + 1;
        }
        if e < s.len() && s[e] == 10 {
            q = e + 1;
        } else if e < s.len() && s[e] == 13 && e + 1 < s.len() && s[e + 1] == 10 {
            q = e + 2;
        } else {
            return q;
        }
    }
}

/// Reads the header at `p`, as `header` does.
fn read_header(s: &[u8], p: usize) -> (r: Option<(u16, u16, usize)>)
    requires
        p <= s@.len(),
    ensures
        match r {
            Some((n, m, e)) => header(s@, p as int) == Some((n as int, m as int, e as int)) && e
                <= s@.len(),
            None => header(s@, p as int) is None,
        },
{
    if !(p < s.len() && s.len() - p >= 5 && s[p] == 112 && s[p + 1] == 32 && s[p + 2] == 99 && s[p
        + 3] == 110 && s[p + 4] == 102) {
        return None;
    }
    let a = skip_white_space(s, p + 5);
    if a == p + 5 {
        return None;
    }
    let (n, b) = match read_pos_number(s, a) {
        Some(x) => x,
        None => {
            return None;
        },
    };
    let c = skip_white_space(s, b);
    if c == b {
        return None;
    }
    match read_pos_number(s, c) {
        Some((m, e)) => Some((n, m, e)),
        None => None,
    }
}

/// Reads a DIMACS text: its clauses, its count of variables and its count of clauses.
/// Fails exactly where the text is not in the format (see the module's documentation).
pub fn parse(i: &str) -> (r: Result<(Vec<Vec<i32>>, u16, u16), ParseError>)
    ensures
        match dimacs(i.spec_bytes()) {
            Some((cs, n, m)) => r matches Ok((vs, rn, rm)) && clauses_as_ints(vs@) == cs && rn == n
                && rm == m,
            None => r is Err,
        },
{
    let s = i.as_bytes();
    let p = skip_comments(s, 0);
    let (n, m, q) = match read_header(s, p) {
        Some(h) => h,
        None => {
            return Err(ParseError { reason: "missing or malformed header".to_owned() });
        },
    };
    match read_clauses(s, q, n, m) {
        Some((cs, _)) => Ok((cs, n, m)),
        None => Err(ParseError { reason: "malformed clauses".to_owned() }),
    }
}


/// Whether some literal of the clause occurs negated in it too.
pub(crate) fn is_tautological(c: &Vec<i32>) -> (r: bool)
    requires
        forall|j: int| 0 <= j < c@.len() ==> -65535 <= #[trigger] c@[j] <= 65535,
    ensures
        r == is_tautology(as_ints(c@)),
{
    let n = c.len();
    let ghost ci = as_ints(c@);
    let mut a: usize = 0;
    while a < n
        invariant
            n == c@.len(),
            ci == as_ints(c@),
            a <= n,
            forall|j: int| 0 <= j < c@.len() ==> -65535 <= #[trigger] c@[j] <= 65535,
            forall|x: int, y: int| 0 <= x < a && 0 <= y < n ==> ci[x] != -ci[y],
        decreases n - a,
    {
        let mut b: usize = 0;
        while b < n
            invariant
                n == c@.len(),
                ci == as_ints(c@),
                a < n,
                b <= n,
                forall|j: int| 0 <= j < c@.len() ==> -65535 <= #[trigger] c@[j] <= 65535,
                forall|x: int, y: int| 0 <= x < a && 0 <= y < n ==> ci[x] != -ci[y],
                forall|y: int| 0 <= y < b ==> ci[a as int] != -ci[y],
            decreases n - b,
        {
            if c[a] == -c[b] {
                assert(ci[a as int] == -ci[b as int]);
                return true;
            }
            b = b + 1;
        }
        a = a + 1;
    }
    false
}

/// Reads a DIMACS text into a formula, leaving out the clauses that are tautologies. Each
/// variable counts in how many kept clauses it occurs positively and negatively (a literal that
/// repeats in a clause counts each time), and each clause watches its literals as
/// `Clause::new` chooses them.
pub fn parse_cnf(cnf_string: &str) -> (r: Result<CnfFormula, ParseError>)
    requires
        dimacs(cnf_string.spec_bytes()) matches Some((cs, n, m)) ==> clauses_within(cs, n),
    ensures
        match dimacs(cnf_string.spec_bytes()) {
            None => r is Err,
            Some((cs, n, m)) => r matches Ok(f) && {
                let kept = without_tautologies(cs);
                &&& f.wf()
                &&& watches_sound(f)
                &&& f.variable_count == n
                &&& f.clauses@.len() == kept.len()
                &&& forall|i: int| 0 <= i < kept.len() ==> as_ints(#[trigger] f.clauses@[i].literals@) == kept[i]
                &&& forall|v: int|
                    1 <= v <= n ==> (#[trigger] f.variables.0@[v - 1]).positive_occurrences_count
                        == literal_count(kept, v) && f.variables.0@[v - 1].negative_occurrences_count
                        == literal_count(kept, -v)
                &&& forall|i: int| 0 <= i < n ==> f.assignments@[i] is None
                &&& f.free_indices@.len() == 0
                &&& f.current_id == kept.len()
                &&& f.learned_clause_start == kept.len()
            },
        },
{
    let (crude, n, m) = match parse(cnf_string) {
        Ok(t) => t,
        Err(e) => {
            return Err(e);
        },
    };
    let ghost cs = clauses_as_ints(crude@);
    proof {
        lemma_dimacs_shape(cnf_string.spec_bytes());
        assert forall|i: int| 0 <= i < crude@.len() implies #[trigger] crude@[i]@.len() == cs[i].len() by {
        }
    }
    let mut clauses: Vec<Clause> = Vec::new();
    let mut variables = Variables::new(n as usize);
    let mut i: usize = 0;
    while i < crude.len()
        invariant
            cs == clauses_as_ints(crude@),
            crude@.len() == m,
            1 <= n <= 65535,
            1 <= m <= 65535,
            clauses_within(cs, n as int),
            forall|k: int| 0 <= k < cs.len() ==> 1 <= (#[trigger] cs[k]).len() <= n,
            forall|k: int, j: int|
                0 <= k < cs.len() && 0 <= j < cs[k].len() ==> #[trigger] cs[k][j] != 0 && -65535
                    <= cs[k][j] <= 65535,
            i <= crude@.len(),
            variables.0@.len() == n,
            clauses@.len() == without_tautologies(cs.take(i as int)).len(),
            clauses@.len() <= i,
            forall|c: int|
                0 <= c < clauses@.len() ==> as_ints((#[trigger] clauses@[c]).literals@)
                    == without_tautologies(cs.take(i as int))[c] && clause_wf(clauses@[c], n as int),
            watch_lists_ok(variables.0@, clauses@),
            complete_watches(variables.0@, clauses@),
            forall|c: int|
                0 <= c < clauses@.len() ==> non_tautological(#[trigger] clauses@[c]) && watch_shape(
                    clauses@[c],
                ),
            forall|v: int|
                1 <= v <= n ==> (#[trigger] variables.0@[v - 1]).positive_occurrences_count
                    == literal_count(without_tautologies(cs.take(i as int)), v)
                    && variables.0@[v - 1].negative_occurrences_count == literal_count(
                    without_tautologies(cs.take(i as int)),
                    -v,
                ),
        decreases crude@.len() - i,
    {
        let ghost kept0 = without_tautologies(cs.take(i as int));
        proof {
            lemma_filter_take(cs, i as int);
            assert forall|k: int| 0 <= k < kept0.len() implies (#[trigger] kept0[k]).len() <= 65535 by {
                assert(kept0.contains(kept0[k]));
                cs.take(i as int).lemma_filter_contains_rev(|c: Seq<int>| !is_tautology(c), kept0[k]);
                let x = choose|x: int| 0 <= x < i && cs.take(i as int)[x] == kept0[k];
                assert(cs[x] == kept0[k]);
            }
            assert forall|j: int| 0 <= j < crude@[i as int]@.len() implies -65535 <= #[trigger] crude@[i as int]@[j]
                <= 65535 by {
                assert(cs[i as int][j] == crude@[i as int]@[j] as int);
            }
        }
        if !is_tautological(&crude[i]) {
            let crude_clause = &crude[i];
            let ghost c = cs[i as int];
            assert(as_ints(crude_clause@) == c);
            let ghost vars0 = variables.0@;
            let mut literals = Literals::new();
            let mut j: usize = 0;
            while j < crude_clause.len()
                invariant
                    c == as_ints(crude_clause@),
                    1 <= c.len() <= n,
                    n <= 65535,
                    forall|k: int| 0 <= k < c.len() ==> #[trigger] c[k] != 0 && -(n as int) <= c[k] <= n,
                    j <= crude_clause@.len(),
                    variables.0@.len() == n,
                    as_ints(literals@) == c.take(j as int),
                    kept0.len() <= i,
                    i < m,
                    m <= 65535,
                    forall|k: int| 0 <= k < kept0.len() ==> (#[trigger] kept0[k]).len() <= 65535,
                    forall|l: int|
                        -(n as int) <= l <= n && l != 0 ==> watch_list(variables.0@, l) == watch_list(vars0, l),
                    forall|v: int|
                        1 <= v <= n ==> (#[trigger] variables.0@[v - 1]).positive_occurrences_count
                            == literal_count(kept0, v) + count_in(c.take(j as int), v)
                            && variables.0@[v - 1].negative_occurrences_count == literal_count(kept0, -v)
                            + count_in(c.take(j as int), -v),
                decreases crude_clause@.len() - j,
            {
                let lit = crude_clause[j];
                assert(c[j as int] == lit as int);
                let variable_id = lit_var(lit);
                let polarity = if lit > 0 {
                    Polarity::Positive
                } else {
                    Polarity::Negative
                };
                proof {
                    let t0 = c.take(j as int);
                    assert(c.take(j + 1) =~= t0.push(lit as int));
                    assert forall|l: int| true implies count_in(c.take(j + 1), l) == count_in(t0, l) + if lit
                        == l {
                        1int
                    } else {
                        0int
                    } by {
                        t0.lemma_filter_push(lit as int, |x: int| x == l);
                    }
                    assert forall|l: int| true implies count_in(t0, l) <= j by {
                        t0.lemma_filter_len(|x: int| x == l);
                    }
                    assert forall|l: int| true implies literal_count(kept0, l) <= i * 65535 by {
                        lemma_literal_count_bound(kept0, l);
                    }
                    assert(i * 65535 + j <= 65535 * 65535 + 65535) by (nonlinear_arith)
                        requires
                            i <= 65535,
                            j <= 65535,
                    ;
                }
                let ghost before = variables.0@;
                let variable = variables.get_mut(variable_id);
                match polarity {
                    Polarity::Positive => {
                        variable.positive_occurrences_count = variable.positive_occurrences_count + 1;
                    },
                    Polarity::Negative => {
                        variable.negative_occurrences_count = variable.negative_occurrences_count + 1;
                    },
                }
                proof {
                    assert forall|l: int| -(n as int) <= l <= n && l != 0 implies watch_list(
                        variables.0@,
                        l,
                    ) == watch_list(vars0, l) by {
                        assert(watch_list(before, l) == watch_list(vars0, l));
                    }
                }
                literals.insert(variable_id, polarity);
                proof {
                    assert(as_ints(literals@) =~= c.take(j + 1));
                }
                j = j + 1;
            }
            assert(c.take(c.len() as int) =~= c);
            proof {
                assert(watch_lists_ok(variables.0@, clauses@)) by {
                    assert forall|l: i32|
                        crate::cnf::literals::lit_ok(l) && 1 <= crate::cnf::literals::var_of(l) <= variables.0@.len()
                            implies crate::cnf::cnf_formula::list_ok(
                        #[trigger] watch_list(variables.0@, l as int),
                        l as int,
                        clauses@,
                    ) by {
                        assert(watch_list(variables.0@, l as int) == watch_list(vars0, l as int));
                    }
                }
                assert forall|k: int, l: i32|
                    #![trigger crate::cnf::clause::watches(clauses@[k], l as int), watch_list(variables.0@, l as int)]
                    0 <= k < clauses@.len() && crate::cnf::literals::lit_ok(l) && 1
                        <= crate::cnf::literals::var_of(l) <= variables.0@.len()
                        && crate::cnf::clause::watches(clauses@[k], l as int) implies watch_list(
                    variables.0@,
                    l as int,
                ).contains(k as usize) by {
                    assert(watch_list(variables.0@, l as int) == watch_list(vars0, l as int));
                    assert(watch_list(vars0, l as int).contains(k as usize));
                }
                assert forall|x: int, y: int| 0 <= x < literals@.len() && 0 <= y < literals@.len() implies #[trigger] literals@[x]
                    != -(#[trigger] literals@[y]) by {
                    assert(as_ints(literals@)[x] == c[x] && as_ints(literals@)[y] == c[y]);
                    assert(!(c[x] == -c[y]));
                }
                assert forall|k: int| 0 <= k < literals@.len() implies crate::cnf::literals::lit_ok(
                    #[trigger] literals@[k],
                ) && 1 <= crate::cnf::literals::var_of(literals@[k]) <= variables.0@.len() by {
                    assert(as_ints(literals@)[k] == c[k]);
                }
            }
            let ghost vars1 = variables.0@;
            let ghost id = clauses@.len();
            let clause = Clause::new(literals, &mut variables, clauses.len());
            proof {
                lemma_watch_lists_push(vars1, variables.0@, clauses@, clause, id as usize);
                lemma_complete_watches_push(vars1, variables.0@, clauses@, clause, id as usize);
                assert(non_tautological(clause));
                if clause.watched1 == clause.watched2 {
                    let lits = clause.literals@;
                    assert forall|x: int| 0 <= x < lits.len() implies #[trigger] lits[x] == clause.watched1 by {
                        lemma_same_var(lits[x], lits[lits.len() - 1]);
                        assert(lits[x] != -lits[lits.len() - 1]);
                    }
                }
            }
            let ghost cl0 = clauses@;
            clauses.push(clause);
            proof {
                let kept1 = without_tautologies(cs.take(i + 1));
                assert(kept1 == kept0.push(c));
                assert forall|v: int| 1 <= v <= n implies (#[trigger] variables.0@[v - 1]).positive_occurrences_count
                    == literal_count(kept1, v) && variables.0@[v - 1].negative_occurrences_count
                    == literal_count(kept1, -v) by {
                    lemma_literal_count_push(kept0, c, v);
                    lemma_literal_count_push(kept0, c, -v);
                    assert(vars1[v - 1].positive_occurrences_count == variables.0@[v - 1].positive_occurrences_count);
                }
                assert forall|k: int| 0 <= k < clauses@.len() implies as_ints((#[trigger] clauses@[k]).literals@)
                    == kept1[k] && clause_wf(clauses@[k], n as int) by {
                    if k < clauses@.len() - 1 {
                        assert(clauses@[k] == cl0[k]);
                    }
                }
                assert forall|k: int| 0 <= k < clauses@.len() implies non_tautological(#[trigger] clauses@[k])
                    && watch_shape(clauses@[k]) by {
                    if k < clauses@.len() - 1 {
                        assert(clauses@[k] == cl0[k]);
                    }
                }
            }
        }
        i = i + 1;
    }
    assert(cs.take(cs.len() as int) =~= cs);
    Ok(CnfFormula::new(clauses, variables))
}

} // verus!
