//! A number has one prime factorization only.
use crate::factors::{
    has_prime, increasing_primes, is_prime_factorization, lemma_product_positive_primes,
    positive_exponents, prime_entries, product,
};
use crate::number_theory::{
    divides, is_prime, lemma_divides_multiple, lemma_divides_product, lemma_divisor_at_most,
    lemma_prime_divides_prime, lemma_prime_divides_product,
};
use vstd::arithmetic::power::{lemma_pow0, lemma_pow_positive, pow};
use vstd::prelude::*;

verus! {

/// A power with a positive exponent is the base times the power before it.
proof fn lemma_power_unfold(p: int, e: nat)
    requires
        e >= 1,
    ensures
        pow(p, e) == p * pow(p, (e - 1) as nat),
{
    reveal(pow);
}

/// A prime that divides a power of a prime is that prime.
pub proof fn lemma_prime_divides_power(q: int, p: int, e: nat)
    requires
        is_prime(q),
        is_prime(p),
        divides(q, pow(p, e)),
    ensures
        q == p,
    decreases e,
{
    if e == 0 {
        lemma_pow0(p);
        lemma_divisor_at_most(q, 1);
    } else {
        lemma_power_unfold(p, e);
        lemma_prime_divides_product(q, p, pow(p, (e - 1) as nat));
        if divides(q, p) {
            lemma_prime_divides_prime(q, p);
        } else {
            lemma_prime_divides_power(q, p, (e - 1) as nat);
        }
    }
}

/// The front part of a factorization is sorted, prime and positive as the
/// whole is.
proof fn lemma_front_of_factorization(s: Seq<(nat, nat)>)
    requires
        s.len() > 0,
        increasing_primes(s),
        prime_entries(s),
        positive_exponents(s),
    ensures
        increasing_primes(s.drop_last()),
        prime_entries(s.drop_last()),
        positive_exponents(s.drop_last()),
        product(s) == product(s.drop_last()) * pow(s.last().0 as int, s.last().1),
        product(s.drop_last()) >= 1,
        pow(s.last().0 as int, s.last().1) >= 1,
{
    let front = s.drop_last();
    assert forall|i: int, j: int| 0 <= i < j < front.len() implies (#[trigger] front[i]).0 < (
    #[trigger] front[j]).0 by {
        assert(s[i].0 < s[j].0);
    }
    assert forall|i: int| 0 <= i < front.len() implies is_prime((#[trigger] front[i]).0 as int) by {
        assert(is_prime(s[i].0 as int));
    }
    assert forall|i: int| 0 <= i < front.len() implies (#[trigger] front[i]).1 >= 1 by {
        assert(s[i].1 >= 1);
    }
    lemma_product_positive_primes(front);
    assert(is_prime(s[s.len() - 1].0 as int));
    lemma_pow_positive(s.last().0 as int, s.last().1);
}

/// The prime of every entry of a factorization divides the product.
pub proof fn lemma_entry_divides_product(s: Seq<(nat, nat)>, i: int)
    requires
        increasing_primes(s),
        prime_entries(s),
        positive_exponents(s),
        0 <= i < s.len(),
    ensures
        divides(s[i].0 as int, product(s)),
    decreases s.len(),
{
    lemma_front_of_factorization(s);
    let front = product(s.drop_last());
    let p = s.last().0 as int;
    let e = s.last().1;
    let power = pow(p, e);
    assert(is_prime(s[i].0 as int));
    if i == s.len() - 1 {
        assert(s[i].1 >= 1);
        lemma_power_unfold(p, e);
        lemma_divides_multiple(p, pow(p, (e - 1) as nat));
        lemma_divides_product(p, power, front);
        assert(power * front == front * power) by (nonlinear_arith);
    } else {
        lemma_entry_divides_product(s.drop_last(), i);
        lemma_divides_product(s[i].0 as int, front, power);
    }
}

/// A prime that divides the product of a factorization is the prime of one
/// of its entries.
pub proof fn lemma_prime_divisor_is_listed(s: Seq<(nat, nat)>, q: int)
    requires
        increasing_primes(s),
        prime_entries(s),
        positive_exponents(s),
        is_prime(q),
        divides(q, product(s)),
    ensures
        has_prime(s, q as nat),
    decreases s.len(),
{
    if s.len() == 0 {
        lemma_divisor_at_most(q, 1);
    } else {
        lemma_front_of_factorization(s);
        let front = s.drop_last();
        let p = s.last().0 as int;
        let e = s.last().1;
        lemma_prime_divides_product(q, product(front), pow(p, e));
        if divides(q, product(front)) {
            lemma_prime_divisor_is_listed(front, q);
            let i = choose|i: int| 0 <= i < front.len() && (#[trigger] front[i]).0 == q as nat;
            assert(s[i].0 == q as nat);
        } else {
            assert(is_prime(s[s.len() - 1].0 as int));
            lemma_prime_divides_power(q, p, e);
            assert(s[s.len() - 1].0 == q as nat);
        }
    }
}

/// Two numbers that a prime does not divide, each times a power of that
/// prime: where the products are equal, so are the numbers and the exponents.
proof fn lemma_power_cancel(p: int, a: int, c: nat, b: int, d: nat)
    requires
        is_prime(p),
        a >= 1,
        b >= 1,
        !divides(p, a),
        !divides(p, b),
        a * pow(p, c) == b * pow(p, d),
    ensures
        a == b,
        c == d,
    decreases c + d,
{
    if c == 0 && d == 0 {
        lemma_pow0(p);
        assert(a * 1 == a && b * 1 == b);
    } else if c == 0 {
        lemma_pow0(p);
        lemma_power_unfold(p, d);
        let rest = pow(p, (d - 1) as nat);
        assert(a == p * (b * rest)) by (nonlinear_arith)
            requires
                a * 1 == b * (p * rest),
        ;
        lemma_divides_multiple(p, b * rest);
    } else if d == 0 {
        lemma_pow0(p);
        lemma_power_unfold(p, c);
        let rest = pow(p, (c - 1) as nat);
        assert(b == p * (a * rest)) by (nonlinear_arith)
            requires
                b * 1 == a * (p * rest),
        ;
        lemma_divides_multiple(p, a * rest);
    } else {
        lemma_power_unfold(p, c);
        lemma_power_unfold(p, d);
        let x = pow(p, (c - 1) as nat);
        let y = pow(p, (d - 1) as nat);
        assert(a * x == b * y) by (nonlinear_arith)
            requires
                a * (p * x) == b * (p * y),
                p >= 2,
        ;
        lemma_power_cancel(p, a, (c - 1) as nat, b, (d - 1) as nat);
    }
}

/// Where the product of a factorization is 1, the factorization is empty.
proof fn lemma_product_one(s: Seq<(nat, nat)>)
    requires
        increasing_primes(s),
        prime_entries(s),
        positive_exponents(s),
        product(s) == 1,
    ensures
        s.len() == 0,
{
    if s.len() > 0 {
        lemma_entry_divides_product(s, 0);
        assert(is_prime(s[0].0 as int));
        lemma_divisor_at_most(s[0].0 as int, 1);
    }
}

/// The prime of the last entry of one factorization of a number is at most
/// that of the last entry of any other.
proof fn lemma_last_prime_at_most(s: Seq<(nat, nat)>, t: Seq<(nat, nat)>)
    requires
        s.len() > 0,
        increasing_primes(s),
        prime_entries(s),
        positive_exponents(s),
        increasing_primes(t),
        prime_entries(t),
        positive_exponents(t),
        product(s) == product(t),
    ensures
        t.len() > 0,
        s.last().0 <= t.last().0,
{
    let p = s.last().0;
    lemma_entry_divides_product(s, s.len() - 1);
    assert(is_prime(s[s.len() - 1].0 as int));
    lemma_prime_divisor_is_listed(t, p as int);
    let j = choose|j: int| 0 <= j < t.len() && (#[trigger] t[j]).0 == p;
    if j < t.len() - 1 {
        assert(t[j].0 < t[t.len() - 1].0);
    }
}

/// The prime of the last entry of a factorization does not divide the
/// product of the entries before it.
proof fn lemma_last_prime_is_new(s: Seq<(nat, nat)>)
    requires
        s.len() > 0,
        increasing_primes(s),
        prime_entries(s),
        positive_exponents(s),
    ensures
        !divides(s.last().0 as int, product(s.drop_last())),
{
    let p = s.last().0;
    let front = s.drop_last();
    lemma_front_of_factorization(s);
    assert(is_prime(s[s.len() - 1].0 as int));
    if divides(p as int, product(front)) {
        lemma_prime_divisor_is_listed(front, p as int);
        let i = choose|i: int| 0 <= i < front.len() && (#[trigger] front[i]).0 == p;
        assert(s[i].0 < s[s.len() - 1].0);
    }
}

/// A number has one prime factorization only: two sequences of increasing
/// primes with positive exponents that multiply out to the same number are
/// equal.
pub proof fn lemma_prime_factorization_unique(s: Seq<(nat, nat)>, t: Seq<(nat, nat)>, n: int)
    requires
        is_prime_factorization(s, n),
        is_prime_factorization(t, n),
    ensures
        s == t,
    decreases s.len(),
{
    if s.len() == 0 {
        lemma_product_one(t);
        assert(s =~= t);
    } else {
        lemma_last_prime_at_most(s, t);
        lemma_last_prime_at_most(t, s);
        lemma_front_of_factorization(s);
        lemma_front_of_factorization(t);
        lemma_last_prime_is_new(s);
        lemma_last_prime_is_new(t);
        let p = s.last().0 as int;
        assert(is_prime(s[s.len() - 1].0 as int));
        lemma_power_cancel(
            p,
            product(s.drop_last()),
            s.last().1,
            product(t.drop_last()),
            t.last().1,
        );
        lemma_prime_factorization_unique(s.drop_last(), t.drop_last(), product(s.drop_last()));
        assert(s.last() == t.last());
        assert(s =~= s.drop_last().push(s.last()));
        assert(t =~= t.drop_last().push(t.last()));
    }
}

} // verus!
