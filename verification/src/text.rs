//! Small helpers over strings and characters.
//!
//! The two `external_body` functions wrap single functions of std that
//! vstd gives no specification.

use vstd::prelude::*;

verus! {

/// Relies on `String::push`: appends exactly the one given character.
#[verifier::external_body]
pub fn push_char(s: &mut String, c: char)
    ensures
        final(s)@ == old(s)@.push(c),
{
    s.push(c);
}

/// Relies on `char::from_u32`: returns the character with the given
/// code, and `None` exactly on surrogate or out-of-range codes.
#[verifier::external_body]
pub fn char_from_u32(v: u32) -> (r: Option<char>)
    ensures
        r is Some <==> (v < 0xD800 || (0xE000 <= v && v < 0x110000)),
        r matches Option::Some(c) ==> c as u32 == v && c == ((v as int) as char),
{
    char::from_u32(v)
}

/// Lowercase hexadecimal digit for a value below sixteen; the digits
/// below ten double as the decimal digits.
pub open spec fn spec_hex_digit(n: int) -> char {
    if n == 0 { '0' } else if n == 1 { '1' } else if n == 2 { '2' } else if n == 3 { '3' }
    else if n == 4 { '4' } else if n == 5 { '5' } else if n == 6 { '6' } else if n == 7 { '7' }
    else if n == 8 { '8' } else if n == 9 { '9' } else if n == 10 { 'a' } else if n == 11 { 'b' }
    else if n == 12 { 'c' } else if n == 13 { 'd' } else if n == 14 { 'e' } else { 'f' }
}

/// The value of a hexadecimal digit character, or 16 for any other character.
pub open spec fn spec_hex_value(c: char) -> int {
    if c == '0' { 0 } else if c == '1' { 1 } else if c == '2' { 2 } else if c == '3' { 3 }
    else if c == '4' { 4 } else if c == '5' { 5 } else if c == '6' { 6 } else if c == '7' { 7 }
    else if c == '8' { 8 } else if c == '9' { 9 }
    else if c == 'a' || c == 'A' { 10 } else if c == 'b' || c == 'B' { 11 }
    else if c == 'c' || c == 'C' { 12 } else if c == 'd' || c == 'D' { 13 }
    else if c == 'e' || c == 'E' { 14 } else if c == 'f' || c == 'F' { 15 }
    else { 16 }
}

pub fn hex_digit(n: u64) -> (c: char)
    requires
        n < 16,
    ensures
        c == spec_hex_digit(n as int),
{
    if n == 0 { '0' } else if n == 1 { '1' } else if n == 2 { '2' } else if n == 3 { '3' }
    else if n == 4 { '4' } else if n == 5 { '5' } else if n == 6 { '6' } else if n == 7 { '7' }
    else if n == 8 { '8' } else if n == 9 { '9' } else if n == 10 { 'a' } else if n == 11 { 'b' }
    else if n == 12 { 'c' } else if n == 13 { 'd' } else if n == 14 { 'e' } else { 'f' }
}

pub fn hex_value(c: char) -> (n: u32)
    ensures
        n == spec_hex_value(c),
{
    if c == '0' { 0 } else if c == '1' { 1 } else if c == '2' { 2 } else if c == '3' { 3 }
    else if c == '4' { 4 } else if c == '5' { 5 } else if c == '6' { 6 } else if c == '7' { 7 }
    else if c == '8' { 8 } else if c == '9' { 9 }
    else if c == 'a' || c == 'A' { 10 } else if c == 'b' || c == 'B' { 11 }
    else if c == 'c' || c == 'C' { 12 } else if c == 'd' || c == 'D' { 13 }
    else if c == 'e' || c == 'E' { 14 } else if c == 'f' || c == 'F' { 15 }
    else { 16 }
}

/// Hexadecimal digits name their values, one for one.
pub proof fn lemma_hex_digit_value(n: int)
    requires
        0 <= n < 16,
    ensures
        spec_hex_value(spec_hex_digit(n)) == n,
{
}

} // verus!
