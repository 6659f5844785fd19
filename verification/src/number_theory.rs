//! Divisibility and primality over the mathematical integers, with the facts
//! about them that trial division rests on.
use vstd::arithmetic::div_mod::{
    lemma_fundamental_div_mod, lemma_mod_bound, lemma_mod_multiples_basic,
};
use vstd::arithmetic::mul::{lemma_mul_is_associative, lemma_mul_is_commutative};
use vstd::prelude::*;

verus! {

/// `d` divides `n`: `n` is a whole multiple of the positive `d`.
pub open spec fn divides(d: int, n: int) -> bool {
    d > 0 && n % d == 0
}

/// `n` is a prime number: at least 2 and without a divisor strictly between
/// 1 and itself.
pub open spec fn is_prime(n: int) -> bool {
    n >= 2 && forall|d: int| 2 <= d < n ==> !#[trigger] divides(d, n)
}

/// The number of primes that are at most `n`.
pub open spec fn prime_count(n: int) -> nat
    decreases n,
{
    if n < 2 {
        0
    } else if is_prime(n) {
        prime_count(n - 1) + 1
    } else {
        prime_count(n - 1)
    }
}

/// No prime lies strictly between `lo` and `hi`.
pub open spec fn no_prime_between(lo: int, hi: int) -> bool {
    forall|k: int| lo < k < hi ==> !#[trigger] is_prime(k)
}

/// A positive number divides each of its multiples.
pub proof fn lemma_divides_multiple(d: int, k: int)
    requires
        d > 0,
    ensures
        divides(d, d * k),
        divides(d, k * d),
{
    lemma_mod_multiples_basic(k, d);
    lemma_mul_is_commutative(d, k);
}

/// A multiple of `d` is `d` times its quotient by `d`.
pub proof fn lemma_divides_quotient(d: int, n: int)
    requires
        divides(d, n),
    ensures
        n == d * (n / d),
{
    lemma_fundamental_div_mod(n, d);
}

/// Divisibility is transitive.
pub proof fn lemma_divides_transitive(a: int, b: int, c: int)
    requires
        divides(a, b),
        divides(b, c),
    ensures
        divides(a, c),
{
    lemma_divides_quotient(a, b);
    lemma_divides_quotient(b, c);
    let m = b / a;
    let k = c / b;
    assert(c == a * (m * k)) by {
        lemma_mul_is_associative(a, m, k);
    }
    lemma_divides_multiple(a, m * k);
}

/// A positive multiple of a positive number is at least that number.
pub proof fn lemma_divisor_at_most(d: int, n: int)
    requires
        d > 0,
        n > 0,
        divides(d, n),
    ensures
        d <= n,
        n / d >= 1,
{
    lemma_divides_quotient(d, n);
    let q = n / d;
    assert(q >= 1) by (nonlinear_arith)
        requires
            n == d * q,
            d > 0,
            n > 0,
    ;
    assert(d <= n) by (nonlinear_arith)
        requires
            n == d * q,
            d > 0,
            q >= 1,
    ;
}

/// The product of two numbers greater than 1 is not prime.
pub proof fn lemma_product_not_prime(a: int, b: int)
    requires
        a > 1,
        b > 1,
    ensures
        !is_prime(a * b),
{
    lemma_divides_multiple(a, b);
    assert(a < a * b) by (nonlinear_arith)
        requires
            a > 1,
            b > 1,
    ;
    assert(divides(a, a * b));
}

/// Every number from 2 on has a prime divisor, and unless the number is
/// itself prime, one whose square does not exceed it.
pub proof fn lemma_prime_divisor(n: int) -> (p: int)
    requires
        n >= 2,
    ensures
        is_prime(p),
        divides(p, n),
        p == n || p * p <= n,
    decreases n,
{
    if is_prime(n) {
        assert(divides(n, n)) by {
            lemma_divides_multiple(n, 1);
        }
        n
    } else {
        let d = choose|d: int| 2 <= d < n && divides(d, n);
        lemma_divides_quotient(d, n);
        let e = n / d;
        assert(2 <= e < n) by (nonlinear_arith)
            requires
                n == d * e,
                2 <= d < n,
        ;
        lemma_divides_multiple(e, d);
        assert(divides(e, n));
        let m = if d <= e { d } else { e };
        assert(m * m <= n) by (nonlinear_arith)
            requires
                n == d * e,
                m == d || m == e,
                m <= d,
                m <= e,
                m >= 2,
        ;
        let p = lemma_prime_divisor(m);
        lemma_divides_transitive(p, m, n);
        lemma_divisor_at_most(p, m);
        assert(p * p <= n) by (nonlinear_arith)
            requires
                2 <= p <= m,
                m * m <= n,
        ;
        p
    }
}

/// Trial division by primes up to the square root decides primality: a number
/// from 2 on that no prime with square at most the number divides is prime.
pub proof fn lemma_prime_by_trial_division(n: int)
    requires
        n >= 2,
        forall|p: int| is_prime(p) && p * p <= n ==> !#[trigger] divides(p, n),
    ensures
        is_prime(n),
{
    let p = lemma_prime_divisor(n);
    if p != n {
        assert(divides(p, n));
    }
}

/// 2 is prime.
pub proof fn lemma_two_is_prime()
    ensures
        is_prime(2),
{
}

/// A prime other than 2 is odd.
pub proof fn lemma_prime_is_two_or_odd(p: int)
    requires
        is_prime(p),
    ensures
        p == 2 || p % 2 == 1,
{
    if p != 2 && p % 2 == 0 {
        assert(divides(2, p));
    }
}

/// An even number greater than 2 is not prime.
pub proof fn lemma_even_not_prime(n: int)
    requires
        n > 2,
        n % 2 == 0,
    ensures
        !is_prime(n),
{
    assert(divides(2, n));
}

/// The count of primes never decreases.
pub proof fn lemma_prime_count_monotonic(a: int, b: int)
    requires
        a <= b,
    ensures
        prime_count(a) <= prime_count(b),
    decreases b - a,
{
    if a < b {
        lemma_prime_count_monotonic(a, b - 1);
    }
}

/// Across a stretch without primes the count of primes stays the same.
pub proof fn lemma_prime_count_across_gap(a: int, b: int)
    requires
        a < b,
        no_prime_between(a, b),
    ensures
        prime_count(b - 1) == prime_count(a),
    decreases b - a,
{
    if a + 1 < b {
        assert(!is_prime(b - 1));
        lemma_prime_count_across_gap(a, b - 1);
    }
}

/// Where the count of primes does not change, there is no prime.
pub proof fn lemma_prime_count_equal(a: int, b: int)
    requires
        a <= b,
        prime_count(a) == prime_count(b),
    ensures
        no_prime_between(a, b + 1),
{
    assert forall|k: int| a < k < b + 1 implies !#[trigger] is_prime(k) by {
        lemma_prime_count_monotonic(a, k - 1);
        lemma_prime_count_monotonic(k, b);
    }
}

/// A divisor of a number divides the multiples of that number.
pub proof fn lemma_divides_product(d: int, n: int, k: int)
    requires
        divides(d, n),
    ensures
        divides(d, n * k),
{
    lemma_divides_quotient(d, n);
    let m = n / d;
    assert(n * k == d * (m * k)) by {
        lemma_mul_is_associative(d, m, k);
    }
    lemma_divides_multiple(d, m * k);
}

/// A positive number that exceeds the quotient of `n` by it has a square
/// beyond `n`; one that does not has a square of at most `n`.
pub proof fn lemma_square_and_quotient(p: int, n: int)
    requires
        p > 0,
        n >= 0,
    ensures
        p > n / p <==> p * p > n,
{
    lemma_fundamental_div_mod(n, p);
    let q = n / p;
    let r = n % p;
    assert(0 <= r < p) by {
        lemma_mod_bound(n, p);
    }
    if p > q {
        assert(p * p > n) by (nonlinear_arith)
            requires
                n == p * q + r,
                r < p,
                p >= q + 1,
                p > 0,
        ;
    } else {
        assert(p * p <= n) by (nonlinear_arith)
            requires
                n == p * q + r,
                r >= 0,
                p <= q,
                p > 0,
        ;
    }
}

/// Of two non-negative numbers, the one with the smaller square is smaller.
pub proof fn lemma_smaller_square(a: int, b: int)
    requires
        a >= 0,
        b >= 0,
        a * a < b * b,
    ensures
        a < b,
{
    if a >= b {
        assert(a * a >= b * b) by (nonlinear_arith)
            requires
                a >= b,
                b >= 0,
        ;
    }
}

/// A common divisor of two numbers divides their difference.
pub proof fn lemma_divides_difference(d: int, x: int, y: int)
    requires
        divides(d, x),
        divides(d, y),
    ensures
        divides(d, x - y),
{
    lemma_divides_quotient(d, x);
    lemma_divides_quotient(d, y);
    let a = x / d;
    let b = y / d;
    assert(x - y == d * (a - b)) by (nonlinear_arith)
        requires
            x == d * a,
            y == d * b,
    ;
    lemma_divides_multiple(d, a - b);
}

/// A prime that divides `r * b`, where `r` is positive and smaller than the
/// prime, divides `b`.
proof fn lemma_prime_divides_cofactor(p: int, r: int, b: int)
    requires
        is_prime(p),
        0 < r < p,
        divides(p, r * b),
    ensures
        divides(p, b),
    decreases r,
{
    if r == 1 {
        assert(r * b == b) by (nonlinear_arith)
            requires
                r == 1,
        ;
    } else {
        let k = p / r;
        let left = p % r;
        lemma_fundamental_div_mod(p, r);
        lemma_mod_bound(p, r);
        if left == 0 {
            assert(divides(r, p));
        }
        lemma_divides_multiple(p, b);
        lemma_divides_product(p, r * b, k);
        lemma_divides_difference(p, p * b, (r * b) * k);
        assert(left * b == p * b - (r * b) * k) by (nonlinear_arith)
            requires
                p == r * k + left,
        ;
        lemma_prime_divides_cofactor(p, left, b);
    }
}

/// A prime that divides a product divides one of the two factors.
pub proof fn lemma_prime_divides_product(p: int, a: int, b: int)
    requires
        is_prime(p),
        a >= 0,
        divides(p, a * b),
    ensures
        divides(p, a) || divides(p, b),
{
    let q = a / p;
    let r = a % p;
    lemma_fundamental_div_mod(a, p);
    lemma_mod_bound(a, p);
    if r != 0 {
        lemma_divides_multiple(p, q * b);
        lemma_divides_difference(p, a * b, p * (q * b));
        assert(r * b == a * b - p * (q * b)) by (nonlinear_arith)
            requires
                a == p * q + r,
        ;
        lemma_prime_divides_cofactor(p, r, b);
    }
}

/// A prime that divides a prime is that prime.
pub proof fn lemma_prime_divides_prime(p: int, q: int)
    requires
        is_prime(p),
        is_prime(q),
        divides(p, q),
    ensures
        p == q,
{
    lemma_divisor_at_most(p, q);
}

} // verus!
