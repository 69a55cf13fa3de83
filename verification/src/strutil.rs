//! String-building helpers: appending characters and decimal digits.
use vstd::prelude::*;

verus! {

/// Relies on String::push: appends exactly the given character to the end
/// of the string.
#[verifier::external_body]
pub(crate) fn push_char(s: &mut String, c: char)
    ensures
        final(s)@ == old(s)@.push(c),
{
    s.push(c);
}

/// The character for one decimal digit.
pub open spec fn digit_char(d: int) -> char {
    if d == 0 {
        '0'
    } else if d == 1 {
        '1'
    } else if d == 2 {
        '2'
    } else if d == 3 {
        '3'
    } else if d == 4 {
        '4'
    } else if d == 5 {
        '5'
    } else if d == 6 {
        '6'
    } else if d == 7 {
        '7'
    } else if d == 8 {
        '8'
    } else {
        '9'
    }
}

fn digit_char_exec(d: u8) -> (c: char)
    requires
        d < 10,
    ensures
        c == digit_char(d as int),
{
    if d == 0 {
        '0'
    } else if d == 1 {
        '1'
    } else if d == 2 {
        '2'
    } else if d == 3 {
        '3'
    } else if d == 4 {
        '4'
    } else if d == 5 {
        '5'
    } else if d == 6 {
        '6'
    } else if d == 7 {
        '7'
    } else if d == 8 {
        '8'
    } else {
        '9'
    }
}

/// The decimal digit characters of `n`, most significant first, with no
/// leading zeros.
pub open spec fn dec_digits_of(n: int) -> Seq<char>
    decreases n,
{
    if n < 0 {
        Seq::empty()
    } else if n < 10 {
        seq![digit_char(n)]
    } else {
        dec_digits_of(n / 10).push(digit_char(n % 10))
    }
}

/// Appends the decimal digits of `n`.
pub fn push_u16_digits(s: &mut String, n: u16)
    ensures
        final(s)@ == old(s)@ + dec_digits_of(n as int),
    decreases n,
{
    if n >= 10 {
        push_u16_digits(s, n / 10);
        push_char(s, digit_char_exec((n % 10) as u8));
        proof {
            assert((old(s)@ + dec_digits_of(n as int / 10)).push(digit_char(n as int % 10))
                =~= old(s)@ + dec_digits_of(n as int / 10).push(digit_char(n as int % 10)));
        }
    } else {
        push_char(s, digit_char_exec(n as u8));
        proof {
            assert(old(s)@.push(digit_char(n as int)) =~= old(s)@ + seq![digit_char(n as int)]);
        }
    }
}

/// The decimal rendering of a number.
pub fn u16_to_string(n: u16) -> (r: String)
    ensures
        r@ == dec_digits_of(n as int),
{
    let mut s = String::new();
    push_u16_digits(&mut s, n);
    proof {
        assert(Seq::<char>::empty() + dec_digits_of(n as int) =~= dec_digits_of(n as int));
    }
    s
}

} // verus!
