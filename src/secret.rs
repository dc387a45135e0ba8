//! The secret: four distinct decimal digits, drawn at random.

use rand::distributions::{Distribution, Uniform};
use vstd::prelude::*;
use crate::digits::{digit_value, is_digit_char};

verus! {

/// Digit `k` of `n` written with four digits, counted from the left.
pub open spec fn digit_of(n: int, k: int) -> int {
    if k == 0 {
        n / 1000 % 10
    } else if k == 1 {
        n / 100 % 10
    } else if k == 2 {
        n / 10 % 10
    } else {
        n % 10
    }
}

/// The four digits of `n`, written with leading zeros, are pairwise distinct.
pub open spec fn distinct_digits(n: int) -> bool {
    forall|a: int, b: int| 0 <= a < b < 4 ==> digit_of(n, a) != digit_of(n, b)
}

/// `s` is `n` written in decimal with exactly four digits, zeros in front.
pub open spec fn spells_four(s: Seq<char>, n: int) -> bool {
    &&& s.len() == 4
    &&& forall|k: int| 0 <= k < 4 ==> is_digit_char(#[trigger] s[k]) && digit_value(s[k]) == digit_of(n, k)
}

/// The digits below `n` that are not in `used`, in increasing order.
pub open spec fn unused_below(used: Seq<u32>, n: nat) -> Seq<u32>
    decreases n,
{
    if n == 0 {
        seq![]
    } else {
        let p = unused_below(used, (n - 1) as nat);
        if used.contains((n - 1) as u32) {
            p
        } else {
            p.push((n - 1) as u32)
        }
    }
}

/// The digits 0 to 9 that are not in `used`, in increasing order.
pub open spec fn unused(used: Seq<u32>) -> Seq<u32> {
    unused_below(used, 10)
}

/// Draw `k` is below `10 - k`: an index among the digits left after `k`
/// were picked.
pub open spec fn valid_draws(draws: Seq<u32>) -> bool {
    forall|k: int| 0 <= k < draws.len() ==> draws[k] < 10 - k
}

/// The digits that `draws` pick, in order: each draw is an index into the
/// digits not picked yet, taken in increasing order.
pub open spec fn picked(draws: Seq<u32>) -> Seq<u32>
    decreases draws.len(),
{
    if draws.len() == 0 {
        seq![]
    } else {
        let p = picked(draws.drop_last());
        p.push(unused(p)[draws.last() as int])
    }
}

/// The number that four digits spell, most significant first.
pub open spec fn spelled(p: Seq<u32>) -> int {
    1000 * p[0] + 100 * p[1] + 10 * p[2] + p[3]
}

/// The digits below `n` that are in `used`.
spec fn used_below(used: Seq<u32>, n: nat) -> Set<u32>
    decreases n,
{
    if n == 0 {
        Set::empty()
    } else {
        let s = used_below(used, (n - 1) as nat);
        if used.contains((n - 1) as u32) {
            s.insert((n - 1) as u32)
        } else {
            s
        }
    }
}

/// Below `n`, every digit is either used or unused, and the unused ones are
/// listed once each.
proof fn lemma_unused_below(used: Seq<u32>, n: nat)
    requires
        n <= 10,
    ensures
        used_below(used, n).finite(),
        unused_below(used, n).len() + used_below(used, n).len() == n,
        forall|x: u32| #[trigger] used_below(used, n).contains(x) <==> (x < n && used.contains(x)),
        forall|x: u32| #[trigger] unused_below(used, n).contains(x) <==> (x < n && !used.contains(x)),
    decreases n,
{
    if n > 0 {
        let m = (n - 1) as nat;
        lemma_unused_below(used, m);
        let p = unused_below(used, m);
        let x = m as u32;
        if !used.contains(x) {
            assert forall|y: u32| #[trigger] unused_below(used, n).contains(y) <==> (y < n && !used.contains(y)) by {
                if p.push(x).contains(y) {
                    let i = choose|i: int| 0 <= i < p.push(x).len() && p.push(x)[i] == y;
                    if i < p.len() {
                        assert(p.contains(y));
                    }
                }
                if y < n && !used.contains(y) {
                    if y == x {
                        assert(p.push(x)[p.len() as int] == y);
                    } else {
                        assert(unused_below(used, m).contains(y));
                        let i = choose|i: int| 0 <= i < p.len() && p[i] == y;
                        assert(p.push(x)[i] == y);
                    }
                }
            }
        }
    }
}

/// Below `m`, the unused digits are the first ones of those below `n`.
proof fn lemma_unused_prefix(used: Seq<u32>, m: nat, n: nat)
    requires
        m <= n,
    ensures
        unused_below(used, m).len() <= unused_below(used, n).len(),
        forall|i: int| 0 <= i < unused_below(used, m).len() ==> unused_below(used, n)[i] == unused_below(used, m)[i],
    decreases n,
{
    if m < n {
        lemma_unused_prefix(used, m, (n - 1) as nat);
    }
}

/// Ten digits less the used ones remain.
proof fn lemma_unused_len(used: Seq<u32>)
    requires
        used.no_duplicates(),
        forall|i: int| 0 <= i < used.len() ==> used[i] < 10,
    ensures
        unused(used).len() == 10 - used.len(),
{
    lemma_unused_below(used, 10);
    assert(used_below(used, 10) =~= used.to_set());
    used.unique_seq_to_set();
}

/// Valid draws pick distinct digits, one for each draw.
proof fn lemma_picked(draws: Seq<u32>)
    requires
        valid_draws(draws),
    ensures
        picked(draws).len() == draws.len(),
        picked(draws).no_duplicates(),
        forall|i: int| 0 <= i < picked(draws).len() ==> picked(draws)[i] < 10,
    decreases draws.len(),
{
    if draws.len() > 0 {
        let rest = draws.drop_last();
        assert(valid_draws(rest)) by {
            assert forall|k: int| 0 <= k < rest.len() implies rest[k] < 10 - k by {
                assert(rest[k] == draws[k]);
            }
        }
        lemma_picked(rest);
        let p = picked(rest);
        lemma_unused_len(p);
        lemma_unused_below(p, 10);
        let x = unused(p)[draws.last() as int];
        assert(draws.last() < 10 - rest.len());
        assert(unused(p).contains(x));
        assert forall|i: int| 0 <= i < p.len() implies p[i] != x by {
            assert(p.contains(p[i]));
        }
    }
}

/// Where the unused digit `d` stands among the unused digits.
proof fn lemma_index_of(used: Seq<u32>, d: u32) -> (i: u32)
    requires
        used.no_duplicates(),
        forall|k: int| 0 <= k < used.len() ==> used[k] < 10,
        d < 10,
        !used.contains(d),
    ensures
        i < 10 - used.len(),
        unused(used)[i as int] == d,
{
    lemma_unused_below(used, 10);
    lemma_unused_len(used);
    assert(unused(used).contains(d));
    let j = choose|j: int| 0 <= j < unused(used).len() && unused(used)[j] == d;
    j as u32
}

/// Draws that pick exactly the distinct digits `target`, in order.
proof fn lemma_draws_for(target: Seq<u32>) -> (draws: Seq<u32>)
    requires
        target.no_duplicates(),
        forall|k: int| 0 <= k < target.len() ==> target[k] < 10,
    ensures
        draws.len() == target.len(),
        valid_draws(draws),
        picked(draws) == target,
    decreases target.len(),
{
    if target.len() == 0 {
        assert(picked(Seq::<u32>::empty()) =~= target);
        Seq::<u32>::empty()
    } else {
        let front = target.drop_last();
        assert(front.no_duplicates()) by {
            assert forall|a: int, b: int| 0 <= a < front.len() && 0 <= b < front.len() && a != b implies front[a] != front[b] by {
                assert(front[a] == target[a] && front[b] == target[b]);
            }
        }
        let rest = lemma_draws_for(front);
        assert(!front.contains(target.last())) by {
            if front.contains(target.last()) {
                let k = choose|k: int| 0 <= k < front.len() && front[k] == target.last();
                assert(target[k] == target[target.len() - 1]);
            }
        }
        let i = lemma_index_of(front, target.last());
        let draws = rest.push(i);
        assert(draws.drop_last() =~= rest);
        assert(picked(draws) =~= target);
        draws
    }
}

/// Relies on `rand::thread_rng` and `Uniform::from(0..n)` of rand: a value
/// in `0..n`. `Uniform::new` panics on an empty range, hence `n > 0`.
#[verifier::external_body]
fn random_below(n: u32) -> (r: u32)
    requires
        n > 0,
    ensures
        r < n,
{
    Uniform::from(0..n).sample(&mut rand::thread_rng())
}

/// The number spelt by four digits has those digits back.
proof fn lemma_digits_of_sum(a: int, b: int, c: int, d: int)
    requires
        0 <= a < 10,
        0 <= b < 10,
        0 <= c < 10,
        0 <= d < 10,
    ensures
        digit_of(1000 * a + 100 * b + 10 * c + d, 0) == a,
        digit_of(1000 * a + 100 * b + 10 * c + d, 1) == b,
        digit_of(1000 * a + 100 * b + 10 * c + d, 2) == c,
        digit_of(1000 * a + 100 * b + 10 * c + d, 3) == d,
        1000 * a + 100 * b + 10 * c + d < 10000,
{
    let n = 1000 * a + 100 * b + 10 * c + d;
    assert(n / 1000 == a) by (nonlinear_arith)
        requires n == 1000 * a + 100 * b + 10 * c + d, 0 <= a < 10, 0 <= b < 10, 0 <= c < 10, 0 <= d < 10;
    assert(n / 100 == 10 * a + b) by (nonlinear_arith)
        requires n == 1000 * a + 100 * b + 10 * c + d, 0 <= a < 10, 0 <= b < 10, 0 <= c < 10, 0 <= d < 10;
    assert(n / 10 == 100 * a + 10 * b + c) by (nonlinear_arith)
        requires n == 1000 * a + 100 * b + 10 * c + d, 0 <= a < 10, 0 <= b < 10, 0 <= c < 10, 0 <= d < 10;
}

/// A number below 10000 is the sum of its four digits by place.
proof fn lemma_sum_of_digits(n: int)
    requires
        0 <= n < 10000,
    ensures
        n == 1000 * digit_of(n, 0) + 100 * digit_of(n, 1) + 10 * digit_of(n, 2) + digit_of(n, 3),
{
    assert(n == 10 * (n / 10) + n % 10) by (nonlinear_arith)
        requires 0 <= n;
    assert(n / 10 == 10 * (n / 100) + n / 10 % 10) by (nonlinear_arith)
        requires 0 <= n;
    assert(n / 100 == 10 * (n / 1000) + n / 100 % 10) by (nonlinear_arith)
        requires 0 <= n;
    assert(n / 1000 % 10 == n / 1000) by (nonlinear_arith)
        requires 0 <= n < 10000;
}

/// `d` is one of the digits in `used`.
fn holds_digit(used: &Vec<u32>, d: u32) -> (r: bool)
    ensures
        r == used@.contains(d),
{
    let mut i: usize = 0;
    while i < used.len()
        invariant
            i <= used@.len(),
            forall|k: int| 0 <= k < i ==> used@[k] != d,
        decreases used@.len() - i,
    {
        if used[i] == d {
            assert(used@[i as int] == d);
            return true;
        }
        i = i + 1;
    }
    false
}

/// The digit at index `r` among those not in `used`, taken in increasing
/// order.
pub fn nth_unused(used: &Vec<u32>, r: u32) -> (d: u32)
    requires
        used@.no_duplicates(),
        forall|k: int| 0 <= k < used@.len() ==> used@[k] < 10,
        r < 10 - used@.len(),
    ensures
        d == unused(used@)[r as int],
        d < 10,
        !used@.contains(d),
{
    proof {
        lemma_unused_len(used@);
    }
    let mut count: u32 = 0;
    let mut d: u32 = 0;
    while d < 10
        invariant
            d <= 10,
            count == unused_below(used@, d as nat).len(),
            count <= r,
            r < unused(used@).len(),
        decreases 10 - d,
    {
        if !holds_digit(used, d) {
            if count == r {
                proof {
                    lemma_unused_prefix(used@, (d + 1) as nat, 10);
                    assert(unused_below(used@, (d + 1) as nat)[r as int] == d);
                    lemma_unused_below(used@, 10);
                    assert(unused(used@).contains(d));
                }
                return d;
            }
            count = count + 1;
        }
        d = d + 1;
    }
    proof {
        assert(false);
    }
    0
}

/// The one-character text of the digit `d`.
fn digit_text(d: u32) -> (r: &'static str)
    requires
        d < 10,
    ensures
        r@.len() == 1,
        is_digit_char(r@[0]),
        digit_value(r@[0]) == d,
{
    match d {
        0 => { proof { reveal_strlit("0"); } "0" },
        1 => { proof { reveal_strlit("1"); } "1" },
        2 => { proof { reveal_strlit("2"); } "2" },
        3 => { proof { reveal_strlit("3"); } "3" },
        4 => { proof { reveal_strlit("4"); } "4" },
        5 => { proof { reveal_strlit("5"); } "5" },
        6 => { proof { reveal_strlit("6"); } "6" },
        7 => { proof { reveal_strlit("7"); } "7" },
        8 => { proof { reveal_strlit("8"); } "8" },
        _ => { proof { reveal_strlit("9"); } "9" },
    }
}

/// The number that a player has to guess.
#[derive(Debug)]
pub struct ChosenSecret {
    /// The secret's value.
    pub number: u32,
    string: String,
}

impl ChosenSecret {
    /// The secret's value.
    pub closed spec fn spec_number(&self) -> u32 {
        self.number
    }

    /// The secret written with four digits, as the scorer compares it.
    pub closed spec fn text(&self) -> Seq<char> {
        self.string@
    }

    /// Below 10000, written with four distinct digits, and its text is that
    /// writing.
    pub open spec fn wf(&self) -> bool {
        &&& self.number() < 10000
        &&& distinct_digits(self.number() as int)
        &&& spells_four(self.text(), self.number() as int)
    }

    /// The secret's value.
    #[verifier::when_used_as_spec(spec_number)]
    pub fn number(&self) -> (r: u32)
        ensures
            r == self.spec_number(),
    {
        self.number
    }

    /// The secret made of the digits `d`, most significant first.
    fn assemble(d: [u32; 4]) -> (r: ChosenSecret)
        requires
            forall|k: int| 0 <= k < 4 ==> d[k] < 10,
            forall|a: int, b: int| 0 <= a < b < 4 ==> d[a] != d[b],
        ensures
            r.wf(),
            r.number() == 1000 * d[0] + 100 * d[1] + 10 * d[2] + d[3],
    {
        let number = 1000 * d[0] + 100 * d[1] + 10 * d[2] + d[3];
        proof {
            lemma_digits_of_sum(d[0] as int, d[1] as int, d[2] as int, d[3] as int);
        }
        let mut string = String::new();
        let mut k: usize = 0;
        while k < 4
            invariant
                k <= 4,
                number == 1000 * d[0] + 100 * d[1] + 10 * d[2] + d[3],
                forall|m: int| 0 <= m < 4 ==> d[m] < 10,
                forall|m: int| 0 <= m < 4 ==> digit_of(number as int, m) == d[m],
                string@.len() == k,
                forall|m: int| 0 <= m < k ==> is_digit_char(#[trigger] string@[m]) && digit_value(string@[m]) == digit_of(number as int, m),
            decreases 4 - k,
        {
            let t = digit_text(d[k]);
            let ghost before = string@;
            string.append(t);
            assert(string@ == before + t@);
            assert(string@[k as int] == t@[0]);
            k = k + 1;
        }
        ChosenSecret { number, string }
    }

    /// The secret that the draws pick: draw `k`, below `10 - k`, is the
    /// index of the next digit among the digits not picked yet, in
    /// increasing order. Uniform draws make every arrangement of four
    /// distinct digits as likely as any other.
    pub fn from_draws(draws: [u32; 4]) -> (r: ChosenSecret)
        requires
            valid_draws(draws@),
        ensures
            r.wf(),
            r.number() == spelled(picked(draws@)),
    {
        let mut chosen: Vec<u32> = Vec::new();
        let mut k: usize = 0;
        while k < 4
            invariant
                k <= 4,
                valid_draws(draws@),
                chosen@ == picked(draws@.subrange(0, k as int)),
            decreases 4 - k,
        {
            let ghost front = draws@.subrange(0, k as int);
            let ghost next = draws@.subrange(0, k as int + 1);
            proof {
                assert(valid_draws(front)) by {
                    assert forall|m: int| 0 <= m < front.len() implies front[m] < 10 - m by {
                        assert(front[m] == draws@[m]);
                    }
                }
                lemma_picked(front);
                assert(next.drop_last() =~= front);
                assert(next.last() == draws[k as int]);
            }
            let d = nth_unused(&chosen, draws[k]);
            chosen.push(d);
            k = k + 1;
        }
        assert(draws@.subrange(0, 4) =~= draws@);
        proof {
            lemma_picked(draws@);
        }
        ChosenSecret::assemble([chosen[0], chosen[1], chosen[2], chosen[3]])
    }

    /// Draws a new secret: four digits at random, each one uniform among the
    /// digits not drawn yet, so that every arrangement of four distinct
    /// digits is as likely as any other. The first digit may be 0.
    pub fn new() -> (r: ChosenSecret)
        ensures
            r.wf(),
            exists|draws: Seq<u32>|
                draws.len() == 4 && valid_draws(draws) && r.number() == spelled(#[trigger] picked(draws)),
    {
        let draws: [u32; 4] = [random_below(10), random_below(9), random_below(8), random_below(7)];
        let r = ChosenSecret::from_draws(draws);
        assert(draws@.len() == 4);
        r
    }

    /// The secret `n`, where `n` is below 10000 and its four digits, zeros in
    /// front, are distinct; `None` otherwise.
    pub fn from_number(n: u32) -> (r: Option<ChosenSecret>)
        ensures
            r is Some <==> n < 10000 && distinct_digits(n as int),
            r matches Some(s) ==> s.number() == n && s.wf(),
    {
        if n >= 10000 {
            return None;
        }
        let d: [u32; 4] = [n / 1000 % 10, n / 100 % 10, n / 10 % 10, n % 10];
        assert(d[0] == digit_of(n as int, 0));
        assert(d[1] == digit_of(n as int, 1));
        assert(d[2] == digit_of(n as int, 2));
        assert(d[3] == digit_of(n as int, 3));
        if d[0] == d[1] || d[0] == d[2] || d[0] == d[3] || d[1] == d[2] || d[1] == d[3] || d[2] == d[3] {
            return None;
        }
        proof {
            lemma_sum_of_digits(n as int);
        }
        Some(ChosenSecret::assemble(d))
    }

    /// A well-formed secret is below 10000, and the four characters of its
    /// text are digits and pairwise distinct.
    pub proof fn text_has_distinct_digits(&self)
        requires
            self.wf(),
        ensures
            self.number() < 10000,
            self.text().len() == 4,
            forall|k: int| 0 <= k < 4 ==> is_digit_char(#[trigger] self.text()[k]),
            forall|a: int, b: int| 0 <= a < b < 4 ==> self.text()[a] != self.text()[b],
    {
        assert forall|a: int, b: int| 0 <= a < b < 4 implies self.text()[a] != self.text()[b] by {
            assert(digit_value(self.text()[a]) == digit_of(self.number() as int, a));
            assert(digit_value(self.text()[b]) == digit_of(self.number() as int, b));
        }
    }

    /// The secret's four digits as text.
    pub fn digits(&self) -> (r: &str)
        ensures
            r@ == self.text(),
    {
        self.string.as_str()
    }
}

/// Every number below 10000 whose four digits, zeros in front, are distinct
/// is the secret of some valid draws; 0123 among them.
pub proof fn every_secret_can_be_drawn(n: u32)
    requires
        n < 10000,
        distinct_digits(n as int),
    ensures
        exists|draws: Seq<u32>|
            draws.len() == 4 && valid_draws(draws) && spelled(#[trigger] picked(draws)) == n,
{
    let target: Seq<u32> = seq![
        digit_of(n as int, 0) as u32,
        digit_of(n as int, 1) as u32,
        digit_of(n as int, 2) as u32,
        digit_of(n as int, 3) as u32,
    ];
    assert(target.no_duplicates()) by {
        assert forall|a: int, b: int| 0 <= a < target.len() && 0 <= b < target.len() && a != b implies target[a] != target[b] by {
            if a < b {
                assert(digit_of(n as int, a) != digit_of(n as int, b));
            } else {
                assert(digit_of(n as int, b) != digit_of(n as int, a));
            }
        }
    }
    let draws = lemma_draws_for(target);
    lemma_sum_of_digits(n as int);
    assert(spelled(picked(draws)) == n);
}

} // verus!
