//! Numbers written out as text: decimal, and fixed-width upper-case hexadecimal.
use vstd::prelude::*;

use crate::text::string_push;

verus! {

/// The character of digit `d` (below 16): `0`–`9`, then `A`–`F`.
pub open spec fn digit_char(d: nat) -> char {
    if d < 10 {
        (48 + d) as char
    } else {
        (55 + d) as char
    }
}

/// `n` in decimal, without leading zeros (`0` is written `0`).
pub open spec fn decimal(n: nat) -> Seq<char>
    decreases n,
{
    if n < 10 {
        seq![digit_char(n)]
    } else {
        decimal(n / 10).push(digit_char(n % 10))
    }
}

/// The last `k` hexadecimal digits of `n`, most significant first, zero-padded.
pub open spec fn hex_digits(n: nat, k: nat) -> Seq<char>
    decreases k,
{
    if k == 0 {
        Seq::empty()
    } else {
        hex_digits(n / 16, (k - 1) as nat).push(digit_char(n % 16))
    }
}

/// A `u32` as `0x` and eight upper-case hexadecimal digits.
pub open spec fn hex32(n: u32) -> Seq<char> {
    seq!['0', 'x'] + hex_digits(n as nat, 8)
}

/// Appends the characters of `t`.
pub fn push_text(s: &mut String, t: &str)
    ensures
        final(s)@ == old(s)@ + t@,
{
    broadcast use vstd::string::group_string_axioms;

    let ghost start = s@;
    for c in it: t.chars()
        invariant
            it.seq() == t@,
            s@ == start + it.seq().take(it.index() as int),
    {
        string_push(s, c);
        proof {
            assert(it.seq().take(it.index() + 1) =~= it.seq().take(it.index() as int).push(c));
        }
    }
    assert(t@.take(t@.len() as int) =~= t@);
}

/// Appends the character of digit `d`.
fn push_digit(s: &mut String, d: u32)
    requires
        d < 16,
    ensures
        final(s)@ == old(s)@.push(digit_char(d as nat)),
{
    let code: u8 = if d < 10 {
        (48 + d) as u8
    } else {
        (55 + d) as u8
    };
    string_push(s, code as char);
}

/// Appends `n` in decimal.
pub fn push_decimal(s: &mut String, n: u32)
    ensures
        final(s)@ == old(s)@ + decimal(n as nat),
    decreases n,
{
    if n >= 10 {
        push_decimal(s, n / 10);
    }
    push_digit(s, n % 10);
    proof {
        if n >= 10 {
            assert(decimal(n as nat) == decimal((n / 10) as nat).push(digit_char((n % 10) as nat)));
        }
    }
    assert(final(s)@ =~= old(s)@ + decimal(n as nat));
}

/// Appends the last `k` hexadecimal digits of `n`, zero-padded.
fn push_hex_digits(s: &mut String, n: u32, k: u32)
    ensures
        final(s)@ == old(s)@ + hex_digits(n as nat, k as nat),
    decreases k,
{
    if k > 0 {
        push_hex_digits(s, n / 16, k - 1);
        push_digit(s, n % 16);
    }
    assert(final(s)@ =~= old(s)@ + hex_digits(n as nat, k as nat));
}

/// Appends `n` as `0x` and eight upper-case hexadecimal digits.
pub fn push_hex32(s: &mut String, n: u32)
    ensures
        final(s)@ == old(s)@ + hex32(n),
{
    string_push(s, '0');
    string_push(s, 'x');
    push_hex_digits(s, n, 8);
    assert(final(s)@ =~= old(s)@ + hex32(n));
}

} // verus!
