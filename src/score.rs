//! Scoring a guess against the secret: bulls and cows.

use vstd::prelude::*;
use crate::digits::all_digits;

verus! {

/// The guess text as it is compared: left-padded with `0` to four
/// characters; a longer text is left as it is.
pub open spec fn padded(g: Seq<char>) -> Seq<char> {
    if g.len() < 4 {
        Seq::new((4 - g.len()) as nat, |_k: int| '0') + g
    } else {
        g
    }
}

/// `j` is the first position of `c` in `s`.
pub open spec fn first_at(s: Seq<char>, c: char, j: int) -> bool {
    &&& 0 <= j < s.len()
    &&& s[j] == c
    &&& forall|k: int| 0 <= k < j ==> s[k] != c
}

/// `c` occurs in `s`.
pub open spec fn occurs(s: Seq<char>, c: char) -> bool {
    exists|j: int| 0 <= j < s.len() && s[j] == c
}

/// Position `i` of the guess `g` is a bull: the first place of its
/// character in the secret is `i` itself.
pub open spec fn is_bull(secret: Seq<char>, g: Seq<char>, i: int) -> bool {
    first_at(secret, g[i], i)
}

/// Position `i` of the guess `g` is a cow: its character occurs in the
/// secret, first at another place.
pub open spec fn is_cow(secret: Seq<char>, g: Seq<char>, i: int) -> bool {
    occurs(secret, g[i]) && !first_at(secret, g[i], i)
}

/// The bulls among the first `n` positions of `g`.
pub open spec fn bulls_upto(secret: Seq<char>, g: Seq<char>, n: int) -> nat
    decreases n,
{
    if n <= 0 {
        0
    } else {
        bulls_upto(secret, g, n - 1) + if is_bull(secret, g, n - 1) { 1nat } else { 0nat }
    }
}

/// The cows among the first `n` positions of `g`.
pub open spec fn cows_upto(secret: Seq<char>, g: Seq<char>, n: int) -> nat
    decreases n,
{
    if n <= 0 {
        0
    } else {
        cows_upto(secret, g, n - 1) + if is_cow(secret, g, n - 1) { 1nat } else { 0nat }
    }
}

/// The score of the guess text `guess` against the secret digits `secret`:
/// bulls and cows over every position of the padded guess.
pub open spec fn score(secret: Seq<char>, guess: Seq<char>) -> (nat, nat) {
    let g = padded(guess);
    (bulls_upto(secret, g, g.len() as int), cows_upto(secret, g, g.len() as int))
}

/// The first `n` positions hold no more bulls and cows together than `n`.
proof fn lemma_tally_bound(secret: Seq<char>, g: Seq<char>, n: int)
    requires
        0 <= n,
    ensures
        bulls_upto(secret, g, n) + cows_upto(secret, g, n) <= n,
    decreases n,
{
    if n > 0 {
        lemma_tally_bound(secret, g, n - 1);
    }
}

/// Against a secret of four distinct digits, a guess of four digits scores
/// at most four bulls and cows together.
pub proof fn bulls_and_cows_at_most_four(secret: Seq<char>, guess: Seq<char>)
    requires
        secret.len() == 4,
        all_digits(secret),
        forall|a: int, b: int| 0 <= a < b < 4 ==> secret[a] != secret[b],
        guess.len() == 4,
        all_digits(guess),
    ensures
        score(secret, guess).0 + score(secret, guess).1 <= 4,
{
    lemma_tally_bound(secret, padded(guess), 4);
}

/// Scoring has no hidden state: any two results that `get_bulls_and_cows`
/// can return for the same secret and the same guess are equal.
pub proof fn score_is_repeatable(secret: Seq<char>, guess: Seq<char>, first: (u32, u32), second: (u32, u32))
    requires
        (first.0 as nat, first.1 as nat) == score(secret, guess),
        (second.0 as nat, second.1 as nat) == score(secret, guess),
    ensures
        first == second,
{
}

/// Returns the number of bulls and the number of cows of the guess text
/// `user_guess` against the secret digits `chosen_number`.
///
/// A guess shorter than four characters is read with leading zeros. Each
/// position of the guess is looked up by its first place in the secret: that
/// place being the same position makes a bull, another place a cow.
pub fn get_bulls_and_cows(chosen_number: &str, user_guess: &str) -> (r: (u32, u32))
    requires
        user_guess@.len() <= u32::MAX,
    ensures
        (r.0 as nat, r.1 as nat) == score(chosen_number@, user_guess@),
{
    let ghost g = padded(user_guess@);
    let secret_len = chosen_number.unicode_len();
    let guess_len = user_guess.unicode_len();
    let pad: usize = if guess_len < 4 { 4 - guess_len } else { 0 };
    let total = pad + guess_len;
    assert(g.len() == total);
    let mut bulls: u32 = 0;
    let mut cows: u32 = 0;
    let mut index: usize = 0;
    while index < total
        invariant
            secret_len == chosen_number@.len(),
            guess_len == user_guess@.len(),
            g == padded(user_guess@),
            total == g.len(),
            total <= u32::MAX,
            pad == total - guess_len,
            index <= total,
            bulls as nat == bulls_upto(chosen_number@, g, index as int),
            cows as nat == cows_upto(chosen_number@, g, index as int),
        decreases total - index,
    {
        let c = if index < pad {
            '0'
        } else {
            user_guess.get_char(index - pad)
        };
        assert(c == g[index as int]);
        let mut j: usize = 0;
        while j < secret_len && chosen_number.get_char(j) != c
            invariant
                secret_len == chosen_number@.len(),
                j <= secret_len,
                forall|k: int| 0 <= k < j ==> chosen_number@[k] != c,
            decreases secret_len - j,
        {
            j = j + 1;
        }
        proof {
            lemma_tally_bound(chosen_number@, g, index as int);
        }
        if j < secret_len {
            assert(first_at(chosen_number@, c, j as int));
            assert(occurs(chosen_number@, c));
            if index == j {
                bulls = bulls + 1;
            } else {
                assert(!first_at(chosen_number@, c, index as int));
                cows = cows + 1;
            }
        } else {
            assert(!occurs(chosen_number@, c));
        }
        index = index + 1;
    }
    (bulls, cows)
}

} // verus!
