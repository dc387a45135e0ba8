//! Decimal digits as characters and the values they spell.

use vstd::prelude::*;

verus! {

/// `c` is one of the characters `0` to `9`.
pub open spec fn is_digit_char(c: char) -> bool {
    '0' <= c && c <= '9'
}

/// The value of a digit character.
pub open spec fn digit_value(c: char) -> int {
    c as int - '0' as int
}

/// Every character of `s` is a decimal digit.
pub open spec fn all_digits(s: Seq<char>) -> bool {
    forall|i: int| 0 <= i < s.len() ==> is_digit_char(#[trigger] s[i])
}

/// The number that the digit string `s` spells, most significant digit first.
pub open spec fn decimal_value(s: Seq<char>) -> nat
    decreases s.len(),
{
    if s.len() == 0 {
        0
    } else {
        10 * decimal_value(s.drop_last()) + (digit_value(s.last()) as nat)
    }
}

/// `s` is a non-empty digit string whose value fits in a `u32`.
pub open spec fn parses_as_u32(s: Seq<char>) -> bool {
    &&& s.len() > 0
    &&& all_digits(s)
    &&& decimal_value(s) <= u32::MAX
}

/// The value of a digit character, computed.
pub fn char_digit(c: char) -> (r: u32)
    requires
        is_digit_char(c),
    ensures
        r as int == digit_value(c),
        r < 10,
{
    (c as u32) - ('0' as u32)
}

} // verus!
