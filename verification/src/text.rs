//! Text utilities: the few trusted bridges to std's string routines that
//! vstd does not specify, and verified decimal rendering of integers.

use vstd::prelude::*;
use vstd::utf8::{valid_utf8, decode_utf8};

verus! {

/// Relies on `String::push`: appends exactly the given character.
pub assume_specification[ std::string::String::push ](s: &mut std::string::String, ch: char)
    ensures
        final(s)@ == old(s)@.push(ch),
;

/// Relies on `String::from_utf8`: accepts exactly the valid UTF-8 byte
/// strings and decodes them; everything else is rejected.
#[verifier::external_body]
pub fn string_from_utf8(v: Vec<u8>) -> (r: Option<String>)
    ensures
        r is Some <==> valid_utf8(v@),
        match r {
            Some(s) => s@ == decode_utf8(v@),
            None => !valid_utf8(v@),
        },
{
    String::from_utf8(v).ok()
}

/// The decimal digits of `n`, most significant first.
pub open spec fn spec_decimal(n: nat) -> Seq<char>
    decreases n,
{
    let digit = seq![digit_char((n % 10) as nat)];
    if n < 10 {
        digit
    } else {
        spec_decimal(n / 10) + digit
    }
}

/// The character for one decimal digit.
pub open spec fn digit_char(d: nat) -> char {
    if d == 0 { '0' }
    else if d == 1 { '1' }
    else if d == 2 { '2' }
    else if d == 3 { '3' }
    else if d == 4 { '4' }
    else if d == 5 { '5' }
    else if d == 6 { '6' }
    else if d == 7 { '7' }
    else if d == 8 { '8' }
    else { '9' }
}

/// The decimal rendering of a signed integer: a minus sign for negative
/// values, then the digits of the absolute value.
pub open spec fn spec_decimal_signed(n: int) -> Seq<char> {
    if n < 0 {
        seq!['-'] + spec_decimal((-n) as nat)
    } else {
        spec_decimal(n as nat)
    }
}

/// Append the decimal rendering of `n` to `out`.
pub fn push_decimal_u64(out: &mut String, n: u64)
    ensures
        final(out)@ == old(out)@ + spec_decimal(n as nat),
    decreases n,
{
    if n < 10 {
        out.push(digit_char_of(n));
    } else {
        push_decimal_u64(out, n / 10);
        out.push(digit_char_of(n % 10));
    }
}

/// The character for one decimal digit (executable form).
pub fn digit_char_of(d: u64) -> (r: char)
    requires
        d < 10,
    ensures
        r == digit_char(d as nat),
{
    match d {
        0 => '0',
        1 => '1',
        2 => '2',
        3 => '3',
        4 => '4',
        5 => '5',
        6 => '6',
        7 => '7',
        8 => '8',
        _ => '9',
    }
}

/// Append the decimal rendering of a signed integer to `out`.
pub fn push_decimal_i64(out: &mut String, n: i64)
    ensures
        final(out)@ == old(out)@ + spec_decimal_signed(n as int),
{
    if n < 0 {
        out.push('-');
        // The magnitude of i64::MIN does not fit in i64, so negate more widely.
        let m: u64 = (-(n as i128)) as u64;
        proof {
            assert(m == -(n as int));
        }
        push_decimal_u64(out, m);
        proof {
            assert(old(out)@.push('-') == old(out)@ + seq!['-']) by {
                assert(old(out)@.push('-') =~= old(out)@ + seq!['-']);
            }
            assert(old(out)@ + seq!['-'] + spec_decimal((-(n as int)) as nat)
                =~= old(out)@ + (seq!['-'] + spec_decimal((-(n as int)) as nat)));
        }
    } else {
        push_decimal_u64(out, n as u64);
    }
}

} // verus!
