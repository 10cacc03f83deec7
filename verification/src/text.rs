//! Text building with exact contracts: decimal rendering, padding and appends.

use vstd::prelude::*;

verus! {

/// The ASCII digit for `d` (`d < 10`).
pub open spec fn digit_char(d: nat) -> char {
    ((48 + d) as u8) as char
}

/// The decimal rendering of `n`, most significant digit first, no leading zeros.
pub open spec fn dec(n: nat) -> Seq<char>
    decreases n,
{
    if n < 10 {
        seq![digit_char(n)]
    } else {
        dec(n / 10).push(digit_char(n % 10))
    }
}

/// `n` space characters.
pub open spec fn spaces(n: nat) -> Seq<char>
    decreases n,
{
    if n == 0 {
        Seq::empty()
    } else {
        spaces((n - 1) as nat).push(' ')
    }
}

/// `t` followed by enough spaces to make it at least `w` characters wide
/// (left-aligned in a field of width `w`).
pub open spec fn pad_right(t: Seq<char>, w: nat) -> Seq<char> {
    if t.len() < w {
        t + spaces((w - t.len()) as nat)
    } else {
        t
    }
}

/// `t` preceded by enough spaces to make it at least `w` characters wide
/// (right-aligned in a field of width `w`).
pub open spec fn pad_left(t: Seq<char>, w: nat) -> Seq<char> {
    if t.len() < w {
        spaces((w - t.len()) as nat) + t
    } else {
        t
    }
}

/// Appends one character (std's `String::push`).
///
/// Trusted: std documents that `push` appends the character to the end of the string.
#[verifier::external_body]
pub(crate) fn push_char(s: &mut String, c: char)
    ensures
        final(s)@ == old(s)@.push(c),
{
    s.push(c);
}

/// Appends the text of `t`.
pub fn push_str(s: &mut String, t: &str)
    ensures
        final(s)@ == old(s)@ + t@,
{
    s.append(t);
}

/// Appends the decimal rendering of `n`.
pub fn push_dec(s: &mut String, n: u64)
    ensures
        final(s)@ == old(s)@ + dec(n as nat),
    decreases n,
{
    let ghost start = s@;
    if n >= 10 {
        push_dec(s, n / 10);
    }
    let d: u8 = (n % 10) as u8;
    let c: char = (48u8 + d) as char;
    push_char(s, c);
    proof {
        if n >= 10 {
            assert(s@ =~= start + dec(n as nat));
        } else {
            assert(s@ =~= start + dec(n as nat));
        }
    }
}

/// The decimal rendering of `n` as a fresh string.
pub fn dec_string(n: u64) -> (s: String)
    ensures
        s@ == dec(n as nat),
{
    let mut s: String = String::new();
    push_dec(&mut s, n);
    proof {
        assert(s@ =~= dec(n as nat));
    }
    s
}

/// Appends `n` spaces.
pub fn push_spaces(s: &mut String, n: usize)
    ensures
        final(s)@ == old(s)@ + spaces(n as nat),
{
    let ghost start = s@;
    let mut i: usize = 0;
    while i < n
        invariant
            i <= n,
            s@ == start + spaces(i as nat),
        decreases n - i,
    {
        push_char(s, ' ');
        i = i + 1;
        proof {
            assert(s@ =~= start + spaces(i as nat));
        }
    }
}

/// Appends `t` left-aligned in a field of width `w`.
pub fn push_padded_right(s: &mut String, t: &str, w: usize)
    ensures
        final(s)@ == old(s)@ + pad_right(t@, w as nat),
{
    let ghost start = s@;
    let len: usize = t.unicode_len();
    push_str(s, t);
    if len < w {
        push_spaces(s, w - len);
    }
    proof {
        assert(s@ =~= start + pad_right(t@, w as nat));
    }
}

/// Appends the decimal rendering of `n` right-aligned in a field of width `w`.
pub fn push_dec_padded_left(s: &mut String, n: u64, w: usize)
    ensures
        final(s)@ == old(s)@ + pad_left(dec(n as nat), w as nat),
{
    let ghost start = s@;
    let digits: String = dec_string(n);
    let len: usize = digits.as_str().unicode_len();
    if len < w {
        push_spaces(s, w - len);
    }
    push_str(s, digits.as_str());
    proof {
        assert(s@ =~= start + pad_left(dec(n as nat), w as nat));
    }
}

/// Appends the decimal rendering of `n` left-aligned in a field of width `w`.
pub fn push_dec_padded_right(s: &mut String, n: u64, w: usize)
    ensures
        final(s)@ == old(s)@ + pad_right(dec(n as nat), w as nat),
{
    let digits: String = dec_string(n);
    push_padded_right(s, digits.as_str(), w);
}

} // verus!
