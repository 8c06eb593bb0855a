//! Small functions with branches, loops and recursion, to try coverage on.

use crate::bytes::same_text;
use vstd::prelude::*;

verus! {

/// The Ramsey numbers that [`ramsey`] knows, for `r` not above `s`.
pub open spec fn ramsey_table(r: u32, s: u32) -> Option<u32> {
    if r == 1 {
        Some(1u32)
    } else if r == 2 {
        Some(s)
    } else if r == 3 && s == 3 {
        Some(6u32)
    } else if r == 3 && s == 4 {
        Some(9u32)
    } else if r == 3 && s == 5 {
        Some(14u32)
    } else if r == 3 && s == 6 {
        Some(18u32)
    } else if r == 3 && s == 7 {
        Some(23u32)
    } else if r == 3 && s == 8 {
        Some(28u32)
    } else if r == 3 && s == 9 {
        Some(36u32)
    } else if r == 4 && s == 4 {
        Some(18u32)
    } else if r == 4 && s == 5 {
        Some(25u32)
    } else {
        None
    }
}

/// The Ramsey number R(r, s), where it is known.
pub open spec fn ramsey_number(r: u32, s: u32) -> Option<u32> {
    if r > s {
        ramsey_table(s, r)
    } else {
        ramsey_table(r, s)
    }
}

/// Produces the Ramsey number R(r, s), which must be one of those known.
pub fn ramsey(r: u32, s: u32) -> (n: u32)
    requires
        ramsey_number(r, s) is Some,
    ensures
        Some(n) == ramsey_number(r, s),
    decreases
            (if r > s {
                1nat
            } else {
                0nat
            }),
{
    if r > s {
        return ramsey(s, r);
    }
    if r == 1 {
        1
    } else if r == 2 {
        s
    } else if r == 3 && s == 3 {
        6
    } else if r == 3 && s == 4 {
        9
    } else if r == 3 && s == 5 {
        14
    } else if r == 3 && s == 6 {
        18
    } else if r == 3 && s == 7 {
        23
    } else if r == 3 && s == 8 {
        28
    } else if r == 3 && s == 9 {
        36
    } else if r == 4 && s == 4 {
        18
    } else {
        25
    }
}

/// The product of the numbers from 1 to `a`.
pub open spec fn factorial_of(a: nat) -> nat
    decreases a,
{
    if a == 0 {
        1
    } else {
        a * factorial_of((a - 1) as nat)
    }
}

/// A factorial is at least 1.
pub proof fn lemma_factorial_positive(a: nat)
    ensures
        factorial_of(a) >= 1,
    decreases a,
{
    if a > 0 {
        lemma_factorial_positive((a - 1) as nat);
        assert(a * factorial_of((a - 1) as nat) >= 1) by (nonlinear_arith)
            requires
                a >= 1,
                factorial_of((a - 1) as nat) >= 1,
        ;
    }
}

/// The factorial of `a`, which must fit 64 bits.
pub fn factorial(a: u64) -> (r: u64)
    requires
        factorial_of(a as nat) <= u64::MAX,
    ensures
        r == factorial_of(a as nat),
    decreases a,
{
    if a == 0 {
        1
    } else {
        proof {
            lemma_factorial_positive((a - 1) as nat);
            assert(factorial_of((a - 1) as nat) <= a * factorial_of((a - 1) as nat))
                by (nonlinear_arith)
                requires
                    a >= 1,
                    factorial_of((a - 1) as nat) >= 1,
            ;
        }
        a * factorial(a - 1)
    }
}

/// The Fibonacci number at the given place of the sequence 1, 1, 2, 3, 5, ...
pub open spec fn fibonacci_number(n: nat) -> nat
    decreases n,
{
    if n <= 1 {
        1
    } else {
        fibonacci_number((n - 1) as nat) + fibonacci_number((n - 2) as nat)
    }
}

/// The Fibonacci numbers, one after the other.
pub struct Fibonacci {
    a: u64,
    b: u64,
}

impl Fibonacci {
    /// The number that comes next, and the one after it.
    pub closed spec fn pair(&self) -> (u64, u64) {
        (self.a, self.b)
    }

    /// Whether the numbers stand at place `n` of the sequence.
    pub open spec fn at(&self, n: nat) -> bool {
        self.pair().0 == fibonacci_number(n) && self.pair().1 == fibonacci_number(n + 1)
    }

    /// The sequence at its start.
    pub fn new() -> (f: Fibonacci)
        ensures
            f.at(0),
            f.pair() == (1u64, 1u64),
    {
        Fibonacci { a: 1, b: 1 }
    }

    /// Hands out the next number. The number after the one after it must fit 64 bits.
    pub fn next(&mut self) -> (r: Option<u64>)
        requires
            old(self).pair().0 + old(self).pair().1 <= u64::MAX,
        ensures
            r == Some(old(self).pair().0),
            final(self).pair() == (
                old(self).pair().1,
                (old(self).pair().0 + old(self).pair().1) as u64,
            ),
            forall|n: nat| old(self).at(n) ==> final(self).at(n + 1),
    {
        let res = self.a;
        self.a = self.b;
        self.b = self.b + res;
        Some(res)
    }
}

/// The power `a` to the `n`.
pub open spec fn power(a: int, n: nat) -> int
    decreases n,
{
    if n == 0 {
        1
    } else {
        a * power(a, (n - 1) as nat)
    }
}

/// The quotient of `a` by `b`, rounded towards zero.
pub open spec fn quotient(a: int, b: int) -> int {
    if a >= 0 && b > 0 {
        a / b
    } else if a >= 0 && b < 0 {
        -(a / (-b))
    } else if a < 0 && b > 0 {
        -((-a) / b)
    } else {
        (-a) / (-b)
    }
}

/// What [`compute`] gives, for the operators it knows.
pub open spec fn computed(a: int, op: Seq<char>, b: int) -> Option<int> {
    if op == "+"@ {
        Some(a + b)
    } else if op == "-"@ {
        Some(a - b)
    } else if op == "*"@ {
        Some(a * b)
    } else if op == "/"@ {
        if b != 0 {
            Some(quotient(a, b))
        } else {
            None
        }
    } else if op == "^"@ {
        Some(
            power(
                a,
                if b > 0 {
                    b as nat
                } else {
                    0
                },
            ),
        )
    } else if op == "max"@ {
        Some(
            if a > b {
                a
            } else {
                b
            },
        )
    } else if op == "min"@ {
        Some(
            if a < b {
                a
            } else {
                b
            },
        )
    } else {
        None
    }
}

/// Whether the numbers that [`compute`] goes through fit 64 bits.
pub open spec fn computable(a: int, op: Seq<char>, b: int) -> bool {
    &&& computed(a, op, b) is Some
    &&& i64::MIN <= computed(a, op, b)->0 <= i64::MAX
    &&& op == "^"@ ==> forall|k: nat| k <= b ==> i64::MIN <= #[trigger] power(a, k) <= i64::MAX
}

/// Performs some silly computation: `op` is one of `+`, `-`, `*`, `/`, `^`, `max` and
/// `min`, and no number on the way may outgrow 64 bits.
pub fn compute(a: i64, op: &str, b: i64) -> (r: i64)
    requires
        computable(a as int, op@, b as int),
    ensures
        Some(r as int) == computed(a as int, op@, b as int),
{
    if same_text(op, "+") {
        a + b
    } else if same_text(op, "-") {
        a - b
    } else if same_text(op, "*") {
        a * b
    } else if same_text(op, "/") {
        let wide_a: i128 = a as i128;
        let wide_b: i128 = b as i128;
        let q: i128 = if a >= 0 && b > 0 {
            wide_a / wide_b
        } else if a >= 0 {
            -(wide_a / (-wide_b))
        } else if b > 0 {
            -((-wide_a) / wide_b)
        } else {
            (-wide_a) / (-wide_b)
        };
        q as i64
    } else if same_text(op, "^") {
        let mut res: i64 = 1;
        let mut i: i64 = 0;
        while i < b
            invariant
                0 <= i,
                i <= b || b < 0,
                b < 0 ==> i == 0,
                res == power(a as int, i as nat),
                forall|k: nat| k <= b ==> i64::MIN <= #[trigger] power(a as int, k) <= i64::MAX,
            decreases b - i,
        {
            proof {
                assert(i64::MIN <= power(a as int, (i + 1) as nat) <= i64::MAX);
                assert(power(a as int, (i + 1) as nat) == a * power(a as int, i as nat));
                assert(res * a == a * res) by (nonlinear_arith);
            }
            res = res * a;
            i += 1;
        }
        res
    } else if same_text(op, "max") {
        if a > b {
            a
        } else {
            b
        }
    } else {
        if a < b {
            a
        } else {
            b
        }
    }
}

/// What the regular expression `\d+` finds first in a text: the first run of digits.
pub uninterp spec fn first_digits(text: Seq<char>) -> Option<Seq<char>>;

/// `Regex::find` of the regular expression `\d+`: the text of the first match, if there is
/// one.
#[verifier::external_body]
fn find_digits(text: &str) -> (r: Option<String>)
    ensures
        match r {
            Some(found) => first_digits(text@) == Some(found@),
            None => first_digits(text@) is None,
        },
{
    regex::Regex::new(r"\d+").ok()?.find(text).map(|m| m.as_str().to_owned())
}

/// The number that the first `n` characters are the decimal digits of, if they are the
/// digits 0 to 9.
pub open spec fn digits_value(text: Seq<char>, n: nat) -> Option<nat>
    decreases n,
{
    if n == 0 {
        Some(0nat)
    } else {
        let c = text[n - 1];
        match digits_value(text, (n - 1) as nat) {
            Some(rest) => if '0' <= c && c <= '9' {
                Some((rest * 10 + (c as u32 - '0' as u32)) as nat)
            } else {
                None
            },
            None => None,
        }
    }
}

/// The number that a text is the decimal form of, if it is one that fits 32 bits.
pub open spec fn decimal_value(text: Seq<char>) -> Option<u32> {
    if text.len() == 0 {
        None
    } else {
        match digits_value(text, text.len()) {
            Some(v) => if v <= u32::MAX {
                Some(v as u32)
            } else {
                None
            },
            None => None,
        }
    }
}

/// The value of digits grows with their number.
proof fn lemma_digits_grow(text: Seq<char>, a: nat, b: nat)
    requires
        a <= b,
        digits_value(text, b) is Some,
    ensures
        digits_value(text, a) is Some,
        digits_value(text, a)->0 <= digits_value(text, b)->0,
    decreases b,
{
    if a < b {
        lemma_digits_grow(text, a, (b - 1) as nat);
    }
}

/// Digits that are refused stay refused.
proof fn lemma_digits_refused(text: Seq<char>, a: nat, b: nat)
    requires
        a <= b,
        digits_value(text, a) is None,
    ensures
        digits_value(text, b) is None,
    decreases b,
{
    if a < b {
        lemma_digits_refused(text, a, (b - 1) as nat);
    }
}

/// Reads a text as a decimal number of 32 bits.
pub fn parse_decimal(text: &str) -> (r: Option<u32>)
    ensures
        r == decimal_value(text@),
{
    let n = text.unicode_len();
    if n == 0 {
        return None;
    }
    let mut value: u32 = 0;
    let mut i: usize = 0;
    while i < n
        invariant
            i <= n,
            n == text@.len(),
            digits_value(text@, i as nat) == Some(value as nat),
        decreases n - i,
    {
        let c = text.get_char(i);
        if !('0' <= c && c <= '9') {
            proof {
                lemma_digits_refused(text@, (i + 1) as nat, n as nat);
            }
            return None;
        }
        let digit: u32 = c as u32 - '0' as u32;
        if value > (u32::MAX - digit) / 10 {
            proof {
                if digits_value(text@, n as nat) is Some {
                    lemma_digits_grow(text@, (i + 1) as nat, n as nat);
                }
            }
            return None;
        }
        value = value * 10 + digit;
        i += 1;
    }
    Some(value)
}

/// The number of what was found in a text, if something was found and is a number.
pub open spec fn number_found(found: Option<Seq<char>>) -> Option<u32> {
    match found {
        Some(digits) => decimal_value(digits),
        None => None,
    }
}

/// The number that the first run of digits in `string` stands for, if there is a run and
/// it stands for a number of 32 bits.
pub fn parse_number_in_middle(string: &str) -> (r: Option<u32>)
    ensures
        r == number_found(first_digits(string@)),
{
    match find_digits(string) {
        Some(found) => parse_decimal(found.as_str()),
        None => None,
    }
}

} // verus!
