//! One turn of a game: a line of input in, what to tell the player out.
//!
//! The game loop itself reads lines and prints reports; every decision it
//! takes is made here.

use vstd::prelude::*;
use crate::digits::decimal_value;
use crate::score::{get_bulls_and_cows, score};
use crate::secret::ChosenSecret;
use crate::validate::{accepted, refusal_of, validate_input, ValidationError};

verus! {

/// `s` without the line-ending characters `\r` and `\n` at its end.
pub open spec fn trim_line_end(s: Seq<char>) -> Seq<char>
    decreases s.len(),
{
    if s.len() > 0 && (s.last() == '\n' || s.last() == '\r') {
        trim_line_end(s.drop_last())
    } else {
        s
    }
}

/// Cuts the line-ending characters `\r` and `\n` off the end of `line`.
pub fn strip_line_end(line: &str) -> (r: &str)
    ensures
        r@ == trim_line_end(line@),
{
    let mut k: usize = line.unicode_len();
    assert(line@.subrange(0, k as int) =~= line@);
    while k > 0 && (line.get_char(k - 1) == '\n' || line.get_char(k - 1) == '\r')
        invariant
            k <= line@.len(),
            trim_line_end(line@.subrange(0, k as int)) == trim_line_end(line@),
        decreases k,
    {
        assert(line@.subrange(0, k as int).drop_last() =~= line@.subrange(0, k as int - 1));
        k = k - 1;
    }
    line.substring_char(0, k)
}

/// What a turn tells the player.
#[derive(Debug)]
pub enum TurnReport {
    /// The guess was refused; the game goes on.
    Refused(ValidationError),
    /// The guess is well formed but wrong; the game goes on.
    Missed { bulls: u32, cows: u32 },
    /// The guess is the secret; the game is over.
    Won,
}

impl TurnReport {
    /// The game ends after this report.
    pub open spec fn spec_ends_game(&self) -> bool {
        self is Won
    }

    /// The game ends after this report.
    #[verifier::when_used_as_spec(spec_ends_game)]
    pub fn ends_game(&self) -> (r: bool)
        ensures
            r == self.spec_ends_game(),
    {
        match self {
            TurnReport::Won => true,
            _ => false,
        }
    }
}

/// Plays the input line `line` against `secret`: the line, without its line
/// ending, is checked; a refused guess is reported with its error, a guess
/// whose value is the secret's wins, and any other is scored against the
/// secret's four digits.
pub fn take_turn(secret: &ChosenSecret, line: &str) -> (r: TurnReport)
    ensures
        ({
            let t = trim_line_end(line@);
            match r {
                TurnReport::Refused(e) => !accepted(t) && refusal_of(t, e),
                TurnReport::Won => accepted(t) && decimal_value(t) == secret.number(),
                TurnReport::Missed { bulls, cows } => {
                    &&& accepted(t)
                    &&& decimal_value(t) != secret.number()
                    &&& (bulls as nat, cows as nat) == score(secret.text(), t)
                },
            }
        }),
{
    let text = strip_line_end(line);
    match validate_input(text) {
        Err(e) => TurnReport::Refused(e),
        Ok(number) => {
            if number == secret.number() {
                TurnReport::Won
            } else {
                let (bulls, cows) = get_bulls_and_cows(secret.digits(), text);
                TurnReport::Missed { bulls, cows }
            }
        },
    }
}

} // verus!
