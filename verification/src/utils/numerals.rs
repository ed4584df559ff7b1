use vstd::prelude::*;

use crate::bindings::std_text::string_from_chars;

verus! {

/// The ASCII digit for `d` in `0..10`.
pub open spec fn digit_char(d: int) -> char {
    ('0' as int + d) as char
}

/// Decimal digits of `n`, without leading zeros ("0" for zero).
pub open spec fn numeral(n: nat) -> Seq<char>
    decreases n,
{
    if n < 10 {
        seq![digit_char(n as int)]
    } else {
        numeral(n / 10).push(digit_char((n % 10) as int))
    }
}

/// How an integer is written: a minus sign for negatives, then its digits.
pub open spec fn int_text(n: int) -> Seq<char> {
    if n < 0 {
        seq!['-'] + numeral((-n) as nat)
    } else {
        numeral(n as nat)
    }
}

/// `n` in at least two digits, padded with a leading zero.
pub open spec fn two_digits(n: nat) -> Seq<char> {
    if n < 10 {
        seq!['0'] + numeral(n)
    } else {
        numeral(n)
    }
}

fn digit_of(d: u64) -> (c: char)
    requires
        d < 10,
    ensures
        c == digit_char(d as int),
{
    if d == 0 {
        '0'
    } else if d == 1 {
        '1'
    } else if d == 2 {
        '2'
    } else if d == 3 {
        '3'
    } else if d == 4 {
        '4'
    } else if d == 5 {
        '5'
    } else if d == 6 {
        '6'
    } else if d == 7 {
        '7'
    } else if d == 8 {
        '8'
    } else {
        '9'
    }
}

/// Appends the decimal digits of `n`.
pub fn push_numeral(n: u64, out: &mut Vec<char>)
    ensures
        final(out)@ == old(out)@ + numeral(n as nat),
    decreases n,
{
    if n >= 10 {
        push_numeral(n / 10, out);
    }
    let c = digit_of(n % 10);
    out.push(c);
    proof {
        if n < 10 {
            assert(n % 10 == n);
        }
    }
}

/// `n` written in decimal, as `i64`'s `Display` writes it.
pub fn int_to_text(n: i64) -> (res: String)
    ensures
        res@ == int_text(n as int),
{
    let mut out: Vec<char> = Vec::new();
    if n < 0 {
        out.push('-');
        let magnitude: u64 = (0i128 - n as i128) as u64;
        push_numeral(magnitude, &mut out);
    } else {
        push_numeral(n as u64, &mut out);
    }
    string_from_chars(out)
}

/// `n` written in decimal.
pub fn nat_to_text(n: u64) -> (res: String)
    ensures
        res@ == numeral(n as nat),
        res@ == int_text(n as int),
{
    let mut out: Vec<char> = Vec::new();
    push_numeral(n, &mut out);
    assert(out@ =~= numeral(n as nat));
    string_from_chars(out)
}

/// Appends `n` in at least two digits.
pub fn push_two_digits(n: u64, out: &mut Vec<char>)
    ensures
        final(out)@ == old(out)@ + two_digits(n as nat),
{
    if n < 10 {
        out.push('0');
    }
    push_numeral(n, out);
    proof {
        if n < 10 {
            assert(old(out)@.push('0') + numeral(n as nat) =~= old(out)@ + (seq!['0'] + numeral(
                n as nat,
            )));
        }
    }
}

} // verus!
