//! The shape rules that a guess must pass before it is scored.

use vstd::prelude::*;
use crate::digits::{all_digits, char_digit, decimal_value, digit_value, is_digit_char, parses_as_u32};

verus! {

/// Why a guess was refused.
#[derive(Debug)]
pub enum ValidationError {
    /// The text is not an unsigned 32-bit number.
    Parse,
    /// The text is a number that breaks the rule it names.
    Invalid(String),
}

/// Among the first `n` characters of `s`, one repeats an earlier one.
pub open spec fn repeat_within(s: Seq<char>, n: int) -> bool {
    exists|j: int, i: int| 0 <= j < i < n && i < s.len() && s[j] == s[i]
}

/// The guess text `s` passes every rule: it is a number, and scanning it
/// finds neither a repeated digit nor a fifth character.
///
/// The repeat rule is checked at each character before the length rule, so
/// a repeat among the first five characters wins over the length; a text
/// shorter than four digits passes.
pub open spec fn accepted(s: Seq<char>) -> bool {
    &&& parses_as_u32(s)
    &&& !repeat_within(s, 5)
    &&& s.len() <= 4
}

/// The rule text of the repeated-digit error.
pub open spec fn repeat_rule() -> Seq<char> {
    "Digits cannot be repeated"@
}

/// The rule text of the length error.
pub open spec fn length_rule() -> Seq<char> {
    "Number has to have 4 digits"@
}

/// `e` is the error that the text `s` is refused with.
pub open spec fn refusal_of(s: Seq<char>, e: ValidationError) -> bool {
    match e {
        ValidationError::Parse => !parses_as_u32(s),
        ValidationError::Invalid(m) => {
            &&& parses_as_u32(s)
            &&& if repeat_within(s, 5) {
                m@ == repeat_rule()
            } else {
                s.len() > 4 && m@ == length_rule()
            }
        },
    }
}

impl ValidationError {
    /// The message that tells a player why the guess was refused.
    pub fn message(&self) -> (r: String)
        ensures
            r@ == match self {
                ValidationError::Parse => "Parse error on user input"@,
                ValidationError::Invalid(m) => "Input does not respect the rule `"@ + m@ + "`"@,
            },
    {
        match self {
            ValidationError::Parse => String::from_str("Parse error on user input"),
            ValidationError::Invalid(m) => {
                let mut r = String::from_str("Input does not respect the rule `");
                r.append(m.as_str());
                r.append("`");
                r
            },
        }
    }
}

/// A prefix of a digit string spells no more than the whole string.
proof fn lemma_prefix_value_le(s: Seq<char>, k: int)
    requires
        all_digits(s),
        0 <= k <= s.len(),
    ensures
        decimal_value(s.subrange(0, k)) <= decimal_value(s),
    decreases s.len(),
{
    if k < s.len() {
        let t = s.drop_last();
        assert(all_digits(t)) by {
            assert forall|i: int| 0 <= i < t.len() implies is_digit_char(#[trigger] t[i]) by {
                assert(t[i] == s[i]);
            }
        }
        lemma_prefix_value_le(t, k);
        assert(t.subrange(0, k) =~= s.subrange(0, k));
        assert(is_digit_char(s[s.len() - 1]));
    } else {
        assert(s.subrange(0, k) =~= s);
    }
}

/// Reads `s` as an unsigned 32-bit number: `None` where it is empty, holds a
/// character that is not a decimal digit, or spells a value above `u32::MAX`.
fn parse_u32(s: &str) -> (r: Option<u32>)
    ensures
        match r {
            Some(v) => parses_as_u32(s@) && v as nat == decimal_value(s@),
            None => !parses_as_u32(s@),
        },
{
    let len = s.unicode_len();
    if len == 0 {
        return None;
    }
    let mut acc: u64 = 0;
    let mut i: usize = 0;
    while i < len
        invariant
            len == s@.len(),
            i <= len,
            all_digits(s@.subrange(0, i as int)),
            acc as nat == decimal_value(s@.subrange(0, i as int)),
            acc <= u32::MAX,
        decreases len - i,
    {
        let c = s.get_char(i);
        if !('0' <= c && c <= '9') {
            return None;
        }
        let d = char_digit(c);
        let ghost prev = s@.subrange(0, i as int);
        let ghost next = s@.subrange(0, i as int + 1);
        assert(next.drop_last() =~= prev);
        acc = acc * 10 + d as u64;
        i = i + 1;
        assert(all_digits(next)) by {
            assert forall|j: int| 0 <= j < next.len() implies is_digit_char(#[trigger] next[j]) by {
                if j < i - 1 {
                    assert(next[j] == prev[j]);
                }
            }
        }
        if acc > 0xFFFF_FFFF {
            proof {
                if all_digits(s@) {
                    lemma_prefix_value_le(s@, i as int);
                }
            }
            return None;
        }
    }
    assert(s@.subrange(0, len as int) =~= s@);
    Some(acc as u32)
}

/// Checks a guess: the text must be an unsigned 32-bit number, and a left to
/// right scan must meet no digit a second time and no fifth character.
/// Returns the number that the text spells.
pub fn validate_input(input: &str) -> (r: Result<u32, ValidationError>)
    ensures
        match r {
            Ok(v) => accepted(input@) && v as nat == decimal_value(input@),
            Err(e) => !accepted(input@) && refusal_of(input@, e),
        },
{
    let guess = match parse_u32(input) {
        Some(v) => v,
        None => return Err(ValidationError::Parse),
    };
    let len = input.unicode_len();
    let mut seen: [bool; 10] = [false; 10];
    let mut i: usize = 0;
    while i < len
        invariant
            len == input@.len(),
            parses_as_u32(input@),
            i <= len,
            i <= 4,
            !repeat_within(input@, i as int),
            forall|d: int|
                0 <= d < 10 ==> (#[trigger] seen[d] <==> exists|j: int|
                    0 <= j < i && digit_value(input@[j]) == d),
        decreases len - i,
    {
        let c = input.get_char(i);
        assert(is_digit_char(input@[i as int]));
        let d = char_digit(c);
        if seen[d as usize] {
            proof {
                let j = choose|j: int| 0 <= j < i && digit_value(input@[j]) == d as int;
                assert(input@[j] == input@[i as int]);
            }
            return Err(ValidationError::Invalid(String::from_str("Digits cannot be repeated")));
        }
        proof {
            assert forall|j: int| 0 <= j < i implies input@[j] != input@[i as int] by {
                if input@[j] == input@[i as int] {
                    assert(seen[d as int]);
                }
            }
        }
        seen[d as usize] = true;
        if i >= 4 {
            return Err(ValidationError::Invalid(String::from_str("Number has to have 4 digits")));
        }
        i = i + 1;
        assert forall|dd: int| 0 <= dd < 10 implies (#[trigger] seen[dd] <==> exists|j: int|
            0 <= j < i && digit_value(input@[j]) == dd) by {
            if dd == d as int {
                assert(digit_value(input@[i - 1]) == dd);
            }
        }
    }
    Ok(guess)
}

} // verus!
