use vstd::prelude::*;

verus! {

/// The character of a decimal digit.
pub open spec fn digit_char(d: nat) -> char {
    ((d + 48) as u8) as char
}

/// The decimal digits of `n`, most significant first, without leading zeros.
pub open spec fn decimal(n: nat) -> Seq<char>
    decreases n,
{
    if n < 10 {
        seq![digit_char(n)]
    } else {
        decimal(n / 10).push(digit_char(n % 10))
    }
}

/// A variable with a sign: `-` before the digits when the value is false.
pub open spec fn signed_var(value: bool, id: nat) -> Seq<char> {
    if value {
        decimal(id)
    } else {
        seq!['-'] + decimal(id)
    }
}

/// An integer in decimal, after a `-` when it is negative.
pub open spec fn int_text(x: int) -> Seq<char> {
    if x < 0 {
        seq!['-'] + decimal((-x) as nat)
    } else {
        decimal(x as nat)
    }
}

/// The integers in decimal, one space between two of them.
pub open spec fn ints_text(s: Seq<i32>) -> Seq<char>
    decreases s.len(),
{
    if s.len() == 0 {
        Seq::empty()
    } else if s.len() == 1 {
        int_text(s[0] as int)
    } else {
        ints_text(s.drop_last()) + seq![' '] + int_text(s.last() as int)
    }
}

/// Appends a character to a string (`String::push`).
#[verifier::external_body]
pub(crate) fn push_char(s: &mut String, c: char)
    ensures
        final(s)@ == old(s)@.push(c),
{
    s.push(c);
}

/// Appends the decimal digits of `n`.
pub(crate) fn push_decimal(s: &mut String, n: u64)
    ensures
        final(s)@ == old(s)@ + decimal(n as nat),
    decreases n,
{
    if n >= 10 {
        push_decimal(s, n / 10);
    }
    let d: u8 = (n % 10) as u8;
    let c = (48u8 + d) as char;
    push_char(s, c);
    proof {
        assert(c == digit_char((n % 10) as nat));
        if n >= 10 {
            assert(decimal(n as nat) == decimal((n / 10) as nat).push(digit_char((n % 10) as nat)));
        } else {
            assert(decimal(n as nat) == seq![digit_char(n as nat)]);
        }
    }
}

/// Appends an integer in decimal.
pub(crate) fn push_int(s: &mut String, x: i32)
    ensures
        final(s)@ == old(s)@ + int_text(x as int),
{
    let ghost s0 = s@;
    if x < 0 {
        push_char(s, '-');
        let m: u64 = (0i64 - x as i64) as u64;
        push_decimal(s, m);
        assert(s@ =~= s0 + int_text(x as int));
    } else {
        push_decimal(s, x as u64);
    }
}

/// Appends a variable with its sign.
pub(crate) fn push_signed(s: &mut String, value: bool, id: u64)
    ensures
        final(s)@ == old(s)@ + signed_var(value, id as nat),
{
    let ghost s0 = s@;
    if !value {
        push_char(s, '-');
    }
    push_decimal(s, id);
    proof {
        if value {
            assert(s@ == s0 + signed_var(value, id as nat));
        } else {
            assert(s@ =~= s0 + signed_var(value, id as nat));
        }
    }
}

} // verus!
