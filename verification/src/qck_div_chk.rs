//! Divisibility by 2, 3, 5 and 7, read off the decimal digits of a number.
use crate::number_theory::divides;
use vstd::arithmetic::div_mod::lemma_mod_multiples_vanish;
use vstd::prelude::*;
use vstd::string::StringExecFns;

verus! {

/// The divisors for which a digit rule is known.
#[derive(Debug, Clone, Copy, PartialEq, Eq)]
pub enum QckDiv {
    Two,
    Three,
    Five,
    Seven,
}

/// The sum of the decimal digits of `n`.
pub open spec fn digit_sum(n: nat) -> nat
    decreases n,
{
    if n < 10 {
        n
    } else {
        n % 10 + digit_sum(n / 10)
    }
}

/// What is left of `n` after one step of the rule for 7: the number without
/// its last digit, minus twice that digit, taken without its sign.
pub open spec fn seven_step(n: nat) -> nat {
    let rest = n / 10;
    let twice = 2 * (n % 10);
    if rest >= twice {
        (rest - twice) as nat
    } else {
        (twice - rest) as nat
    }
}

/// The digit sum of a number never exceeds it, and is smaller from 10 on.
pub proof fn lemma_digit_sum_bound(n: nat)
    ensures
        digit_sum(n) <= n,
        n >= 10 ==> digit_sum(n) < n,
    decreases n,
{
    if n >= 10 {
        lemma_digit_sum_bound(n / 10);
    }
}

/// A number and its digit sum leave the same remainder on division by 3.
pub proof fn lemma_digit_sum_mod_3(n: nat)
    ensures
        digit_sum(n) % 3 == n % 3,
    decreases n,
{
    if n >= 10 {
        let front = n / 10;
        lemma_digit_sum_mod_3(front);
        let a = (digit_sum(front) / 3) as int;
        let b = (front / 3) as int;
        let m = (front % 3) as int;
        assert(digit_sum(front) == 3 * a + m);
        assert(front == 3 * b + m);
        assert(n == 3 * (10 * b + 3 * m - a) + digit_sum(n));
        lemma_mod_multiples_vanish(10 * b + 3 * m - a, digit_sum(n) as int, 3);
    }
}

/// One step of the rule for 7 keeps divisibility by 7, and shrinks every
/// number of three digits or more.
pub proof fn lemma_seven_step(n: nat)
    ensures
        divides(7, seven_step(n) as int) == divides(7, n as int),
        n >= 100 ==> seven_step(n) < n,
{
    let rest = (n / 10) as int;
    let digit = (n % 10) as int;
    let diff = rest - 2 * digit;
    assert(n == 10 * diff + 21 * digit);
    assert((diff % 7 == 0) == (n % 7 == 0));
    assert(((-diff) % 7 == 0) == (diff % 7 == 0));
}

impl QckDiv {
    /// The divisor that the rule tests for.
    pub open spec fn divisor_spec(self) -> int {
        match self {
            QckDiv::Two => 2,
            QckDiv::Three => 3,
            QckDiv::Five => 5,
            QckDiv::Seven => 7,
        }
    }

    /// The divisor that the rule tests for.
    pub fn divisor(&self) -> (d: usize)
        ensures
            d == self.divisor_spec(),
    {
        match self {
            QckDiv::Two => 2,
            QckDiv::Three => 3,
            QckDiv::Five => 5,
            QckDiv::Seven => 7,
        }
    }

    /// Whether the divisor divides `n`, decided from the decimal digits of
    /// `n`: by the last digit for 2 and 5, by the repeated digit sum for 3,
    /// and for 7 by repeatedly taking twice the last digit from the rest.
    pub fn check_div(&self, n: usize) -> (r: bool)
        ensures
            r == divides(self.divisor_spec(), n as int),
    {
        match self {
            QckDiv::Two => {
                let digit: usize = n % 10;
                digit == 0 || digit == 2 || digit == 4 || digit == 6 || digit == 8
            },
            QckDiv::Three => {
                let mut rest: usize = n;
                while rest >= 10
                    invariant
                        rest % 3 == n % 3,
                    decreases rest,
                {
                    proof {
                        lemma_digit_sum_bound(rest as nat);
                        lemma_digit_sum_mod_3(rest as nat);
                    }
                    rest = sum_of_digits(rest);
                }
                rest == 0 || rest == 3 || rest == 6 || rest == 9
            },
            QckDiv::Five => {
                let digit: usize = n % 10;
                digit == 0 || digit == 5
            },
            QckDiv::Seven => {
                let mut rest: usize = n;
                while rest >= 100
                    invariant
                        divides(7, rest as int) == divides(7, n as int),
                    decreases rest,
                {
                    proof {
                        lemma_seven_step(rest as nat);
                    }
                    let twice: usize = 2 * (rest % 10);
                    let front: usize = rest / 10;
                    rest = if front >= twice {
                        front - twice
                    } else {
                        twice - front
                    };
                }
                rest == 0 || rest == 7 || rest == 14 || rest == 21 || rest == 28 || rest == 35
                    || rest == 42 || rest == 49 || rest == 56 || rest == 63 || rest == 70 || rest
                    == 77 || rest == 84 || rest == 91 || rest == 98
            },
        }
    }

    /// The divisor in decimal.
    pub fn to_string(&self) -> (s: String)
        ensures
            s@ == seq![
                match self {
                    QckDiv::Two => '2',
                    QckDiv::Three => '3',
                    QckDiv::Five => '5',
                    QckDiv::Seven => '7',
                },
            ],
    {
        proof {
            reveal_strlit("2");
            reveal_strlit("3");
            reveal_strlit("5");
            reveal_strlit("7");
        }
        let printable = match self {
            QckDiv::Two => "2",
            QckDiv::Three => "3",
            QckDiv::Five => "5",
            QckDiv::Seven => "7",
        };
        assert(printable@ =~= seq![
            match self {
                QckDiv::Two => '2',
                QckDiv::Three => '3',
                QckDiv::Five => '5',
                QckDiv::Seven => '7',
            },
        ]);
        String::from_str(printable)
    }
}

/// Adds up the decimal digits of `n`.
pub fn sum_of_digits(n: usize) -> (s: usize)
    ensures
        s == digit_sum(n as nat),
{
    let mut rest: usize = n;
    let mut sum: usize = 0;
    proof {
        lemma_digit_sum_bound(n as nat);
    }
    while rest >= 10
        invariant
            sum + digit_sum(rest as nat) == digit_sum(n as nat),
            digit_sum(n as nat) <= n,
        decreases rest,
    {
        sum = sum + rest % 10;
        rest = rest / 10;
    }
    sum + rest
}

} // verus!
