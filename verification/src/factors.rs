//! Factorizations: distinct primes, each with the number of times it occurs.
use crate::number_theory::is_prime;
use crate::text::{
    append_decimal, bracketed, comma_separated, decimal, lemma_comma_separated_step,
};
use vstd::arithmetic::power::{
    lemma0_pow, lemma1_pow, lemma_pow0, lemma_pow1, lemma_pow_increases, lemma_pow_positive, pow,
};
use vstd::prelude::*;
use vstd::string::StringExecFns;

verus! {

/// A prime together with the number of times it occurs in a factorization.
#[derive(Debug, PartialEq, Eq)]
pub struct Factor {
    prime: usize,
    cant: usize,
}

/// A factorization, in the order in which its primes were first added.
pub struct Factors {
    factor_vec: Vec<Factor>,
}

/// The number that the entries `(prime, exponent)` of `s` multiply out to.
pub open spec fn product(s: Seq<(nat, nat)>) -> int
    decreases s.len(),
{
    if s.len() == 0 {
        1
    } else {
        product(s.drop_last()) * pow(s.last().0 as int, s.last().1)
    }
}

/// Some entry of `s` is for the prime `p`.
pub open spec fn has_prime(s: Seq<(nat, nat)>, p: nat) -> bool {
    exists|i: int| 0 <= i < s.len() && (#[trigger] s[i]).0 == p
}

/// The place of the entry for `p` in a sequence that has one.
pub open spec fn index_of_prime(s: Seq<(nat, nat)>, p: nat) -> int {
    choose|i: int| 0 <= i < s.len() && (#[trigger] s[i]).0 == p
}

/// The number of times that `p` occurs according to `s`.
pub open spec fn exponent_of(s: Seq<(nat, nat)>, p: nat) -> nat {
    if has_prime(s, p) {
        s[index_of_prime(s, p)].1
    } else {
        0
    }
}

/// No two entries are for the same prime.
pub open spec fn distinct_primes(s: Seq<(nat, nat)>) -> bool {
    forall|i: int, j: int| 0 <= i < j < s.len() ==> (#[trigger] s[i]).0 != (#[trigger] s[j]).0
}

/// Every entry stands for at least one occurrence.
pub open spec fn positive_exponents(s: Seq<(nat, nat)>) -> bool {
    forall|i: int| 0 <= i < s.len() ==> (#[trigger] s[i]).1 >= 1
}

/// `s` with one more occurrence of `p`: the entry for `p` counts one more,
/// or, where there is none yet, a new entry follows the others.
pub open spec fn with_occurrence(s: Seq<(nat, nat)>, p: nat) -> Seq<(nat, nat)> {
    if has_prime(s, p) {
        let i = index_of_prime(s, p);
        s.update(i, (p, s[i].1 + 1))
    } else {
        s.push((p, 1))
    }
}

/// The primes of the entries grow from each entry to the next.
pub open spec fn increasing_primes(s: Seq<(nat, nat)>) -> bool {
    forall|i: int, j: int| 0 <= i < j < s.len() ==> (#[trigger] s[i]).0 < (#[trigger] s[j]).0
}

/// The first component of every entry is a prime number.
pub open spec fn prime_entries(s: Seq<(nat, nat)>) -> bool {
    forall|i: int| 0 <= i < s.len() ==> is_prime((#[trigger] s[i]).0 as int)
}

/// `s` is the prime factorization of `n`: primes in increasing order, each
/// with a positive exponent, that multiply out to `n`.
pub open spec fn is_prime_factorization(s: Seq<(nat, nat)>, n: int) -> bool {
    &&& increasing_primes(s)
    &&& prime_entries(s)
    &&& positive_exponents(s)
    &&& product(s) == n
}

/// An entry as text: the prime and the exponent in decimal, separated by a
/// comma and a space, between round brackets.
pub open spec fn factor_text(f: (nat, nat)) -> Seq<char> {
    seq!['('] + decimal(f.0) + seq![',', ' '] + decimal(f.1) + seq![')']
}

/// A factorization as text: its entries as a list, in their order.
pub open spec fn factors_text(s: Seq<(nat, nat)>) -> Seq<char> {
    bracketed(s.map_values(|f: (nat, nat)| factor_text(f)))
}

/// Among distinct primes, the entry for a prime is the only one with it.
pub proof fn lemma_index_of_prime(s: Seq<(nat, nat)>, i: int)
    requires
        distinct_primes(s),
        0 <= i < s.len(),
    ensures
        has_prime(s, s[i].0),
        index_of_prime(s, s[i].0) == i,
{
    let p = s[i].0;
    let j = index_of_prime(s, p);
    if j < i {
        assert(s[j].0 != s[i].0);
    } else if i < j {
        assert(s[i].0 != s[j].0);
    }
}

/// Raising the exponent of one entry by 1 multiplies the product by the
/// prime of that entry.
pub proof fn lemma_product_update(s: Seq<(nat, nat)>, i: int)
    requires
        0 <= i < s.len(),
    ensures
        product(s.update(i, (s[i].0, s[i].1 + 1))) == product(s) * s[i].0,
    decreases s.len(),
{
    let p = s[i].0;
    let e = s[i].1;
    let t = s.update(i, (p, e + 1));
    let a = product(s.drop_last());
    if i == s.len() - 1 {
        assert(t.drop_last() =~= s.drop_last());
        assert(pow(p as int, e + 1) == p * pow(p as int, e)) by {
            reveal(pow);
        }
        assert(a * (p * pow(p as int, e)) == (a * pow(p as int, e)) * p) by (nonlinear_arith);
    } else {
        assert(t.drop_last() =~= s.drop_last().update(i, (p, e + 1)));
        lemma_product_update(s.drop_last(), i);
        let l = pow(s.last().0 as int, s.last().1);
        assert((a * p) * l == (a * l) * p) by (nonlinear_arith);
    }
}

/// A new entry with exponent 1 multiplies the product by its prime.
pub proof fn lemma_product_push(s: Seq<(nat, nat)>, p: nat)
    ensures
        product(s.push((p, 1))) == product(s) * p,
{
    assert(s.push((p, 1)).drop_last() =~= s);
    lemma_pow1(p as int);
}

/// One more occurrence of `p` multiplies the product by `p`, and keeps the
/// primes distinct and the exponents positive.
pub proof fn lemma_with_occurrence(s: Seq<(nat, nat)>, p: nat)
    requires
        distinct_primes(s),
        positive_exponents(s),
    ensures
        product(with_occurrence(s, p)) == product(s) * p,
        distinct_primes(with_occurrence(s, p)),
        positive_exponents(with_occurrence(s, p)),
        exponent_of(with_occurrence(s, p), p) == exponent_of(s, p) + 1,
{
    let t = with_occurrence(s, p);
    if has_prime(s, p) {
        let i = index_of_prime(s, p);
        lemma_product_update(s, i);
        assert forall|a: int, b: int| 0 <= a < b < t.len() implies (#[trigger] t[a]).0 != (
        #[trigger] t[b]).0 by {
            assert(s[a].0 != s[b].0);
        }
        assert forall|a: int| 0 <= a < t.len() implies (#[trigger] t[a]).1 >= 1 by {
            assert(s[a].1 >= 1);
        }
        lemma_index_of_prime(t, i);
    } else {
        lemma_product_push(s, p);
        assert forall|a: int, b: int| 0 <= a < b < t.len() implies (#[trigger] t[a]).0 != (
        #[trigger] t[b]).0 by {
            if b == s.len() {
                assert(s[a].0 != p);
            } else {
                assert(s[a].0 != s[b].0);
            }
        }
        assert forall|a: int| 0 <= a < t.len() implies (#[trigger] t[a]).1 >= 1 by {
            if a < s.len() {
                assert(s[a].1 >= 1);
            }
        }
        lemma_index_of_prime(t, s.len() as int);
    }
}

/// An exponent is smaller than the power it raises a number from 2 on to.
pub proof fn lemma_exponent_below_power(b: int, e: nat)
    requires
        b >= 2,
    ensures
        e < pow(b, e),
    decreases e,
{
    reveal(pow);
    if e > 0 {
        lemma_exponent_below_power(b, (e - 1) as nat);
        let q = pow(b, (e - 1) as nat);
        assert(e < b * q) by (nonlinear_arith)
            requires
                b >= 2,
                e >= 1,
                q >= e,
        ;
    }
}

/// Prime entries multiply out to a positive number.
pub proof fn lemma_product_positive_primes(s: Seq<(nat, nat)>)
    requires
        prime_entries(s),
    ensures
        product(s) >= 1,
{
    assert forall|i: int| 0 <= i < s.len() implies (#[trigger] s[i]).0 != 0 by {
        assert(is_prime(s[i].0 as int));
    }
    lemma_product_positive(s);
}

/// The prime factorization of a number multiplies out to that number again,
/// lists no prime twice and gives every prime a positive exponent.
pub proof fn lemma_factorization_round_trip(s: Seq<(nat, nat)>, n: usize)
    requires
        n > 1,
        is_prime_factorization(s, n as int),
    ensures
        product(s) == n,
        product(s) <= usize::MAX,
        distinct_primes(s),
        positive_exponents(s),
{
}

/// A sequence with an entry for the prime 0 multiplies out to 0.
pub proof fn lemma_product_zero(s: Seq<(nat, nat)>, i: int)
    requires
        positive_exponents(s),
        0 <= i < s.len(),
        s[i].0 == 0,
    ensures
        product(s) == 0,
    decreases s.len(),
{
    if i == s.len() - 1 {
        lemma0_pow(s[i].1);
        assert(product(s.drop_last()) * 0 == 0);
    } else {
        let front = s.drop_last();
        assert forall|a: int| 0 <= a < front.len() implies (#[trigger] front[a]).1 >= 1 by {
            assert(s[a].1 >= 1);
        }
        lemma_product_zero(s.drop_last(), i);
        assert(0 * pow(s.last().0 as int, s.last().1) == 0);
    }
}

/// While no entry is for the prime 0, the product of the first `k` entries is
/// positive and at most the product of all.
pub proof fn lemma_product_front(s: Seq<(nat, nat)>, k: int)
    requires
        forall|i: int| 0 <= i < s.len() ==> (#[trigger] s[i]).0 != 0,
        0 <= k <= s.len(),
    ensures
        1 <= product(s.take(k)) <= product(s),
    decreases s.len() - k,
{
    if k == s.len() {
        assert(s.take(k) =~= s);
        lemma_product_positive(s);
    } else {
        lemma_product_front(s, k + 1);
        let t = s.take(k + 1);
        assert(t.drop_last() =~= s.take(k));
        assert(t.last() == s[k]);
        lemma_pow_positive(s[k].0 as int, s[k].1);
        lemma_product_positive(s.take(k));
        let a = product(s.take(k));
        let b = pow(s[k].0 as int, s[k].1);
        assert(a <= a * b) by (nonlinear_arith)
            requires
                a >= 1,
                b >= 1,
        ;
    }
}

/// While no entry is for the prime 0, the product is positive.
pub proof fn lemma_product_positive(s: Seq<(nat, nat)>)
    requires
        forall|i: int| 0 <= i < s.len() ==> (#[trigger] s[i]).0 != 0,
    ensures
        product(s) >= 1,
    decreases s.len(),
{
    if s.len() > 0 {
        lemma_product_positive(s.drop_last());
        lemma_pow_positive(s.last().0 as int, s.last().1);
        let a = product(s.drop_last());
        let b = pow(s.last().0 as int, s.last().1);
        assert(a * b >= 1) by (nonlinear_arith)
            requires
                a >= 1,
                b >= 1,
        ;
    }
}

impl View for Factor {
    type V = (nat, nat);

    closed spec fn view(&self) -> (nat, nat) {
        (self.prime as nat, self.cant as nat)
    }
}

impl Factor {
    /// The first occurrence of `p`.
    pub fn new(p: usize) -> (f: Factor)
        ensures
            f@ == (p as nat, 1nat),
    {
        Factor { prime: p, cant: 1 }
    }

    /// The prime.
    pub fn prime(&self) -> (p: usize)
        ensures
            p == self@.0,
    {
        self.prime
    }

    /// The number of times the prime occurs.
    pub fn cant(&self) -> (e: usize)
        ensures
            e == self@.1,
    {
        self.cant
    }

    /// Appends the entry as text to `out`.
    fn append_to(&self, out: &mut String)
        ensures
            final(out)@ == old(out)@ + factor_text(self@),
    {
        proof {
            reveal_strlit("(");
            reveal_strlit(", ");
            reveal_strlit(")");
        }
        out.append("(");
        append_decimal(out, self.prime);
        out.append(", ");
        append_decimal(out, self.cant);
        out.append(")");
        assert(out@ =~= old(out)@ + factor_text(self@));
    }

    /// The entry as text, as in `(5, 2)`.
    pub fn to_string(&self) -> (s: String)
        ensures
            s@ == factor_text(self@),
    {
        let mut out = String::new();
        self.append_to(&mut out);
        assert(out@ =~= factor_text(self@));
        out
    }

    /// Counts one more occurrence of the prime.
    pub fn add_factor(&mut self)
        requires
            old(self)@.1 < usize::MAX,
        ensures
            final(self)@ == (old(self)@.0, old(self)@.1 + 1),
    {
        self.cant = self.cant + 1;
    }

    /// The prime raised to its exponent.
    pub fn de_factor(&self) -> (r: usize)
        requires
            pow(self@.0 as int, self@.1) <= usize::MAX,
        ensures
            r == pow(self@.0 as int, self@.1),
    {
        let mut r: usize = 1;
        let mut i: usize = 0;
        proof {
            lemma_pow0(self.prime as int);
        }
        if self.prime <= 1 {
            proof {
                if self.cant > 0 {
                    if self.prime == 0 {
                        lemma0_pow(self.cant as nat);
                    } else {
                        lemma1_pow(self.cant as nat);
                    }
                }
            }
            return if self.cant == 0 {
                1
            } else {
                self.prime
            };
        }
        while i < self.cant
            invariant
                i <= self.cant,
                self.prime >= 2,
                r == pow(self.prime as int, i as nat),
                pow(self.prime as int, self.cant as nat) <= usize::MAX,
            decreases self.cant - i,
        {
            proof {
                lemma_pow_increases(self.prime as nat, (i + 1) as nat, self.cant as nat);
                assert(pow(self.prime as int, (i + 1) as nat) == self.prime * pow(
                    self.prime as int,
                    i as nat,
                )) by {
                    reveal(pow);
                }
            }
            r = self.prime * r;
            i = i + 1;
        }
        r
    }
}

impl View for Factors {
    type V = Seq<(nat, nat)>;

    closed spec fn view(&self) -> Seq<(nat, nat)> {
        self.factor_vec@.map_values(|f: Factor| f@)
    }
}

impl Factors {
    /// No prime has two entries, and every entry counts at least one
    /// occurrence.
    pub open spec fn wf(&self) -> bool {
        &&& distinct_primes(self@)
        &&& positive_exponents(self@)
    }

    /// The factorization of 1: no entries.
    pub fn new() -> (r: Factors)
        ensures
            r@ == Seq::<(nat, nat)>::empty(),
            r.wf(),
    {
        let r = Factors { factor_vec: Vec::new() };
        assert(r@ =~= Seq::<(nat, nat)>::empty());
        r
    }

    /// The entry for the prime `p`, if there is one.
    pub fn get_factor(&mut self, p: usize) -> (r: Option<&mut Factor>)
        requires
            old(self).wf(),
        ensures
            match r {
                Some(f) => {
                    let i = index_of_prime(old(self)@, p as nat);
                    &&& has_prime(old(self)@, p as nat)
                    &&& f@ == old(self)@[i]
                    &&& final(self)@ == old(self)@.update(i, final(f)@)
                },
                None => !has_prime(old(self)@, p as nat) && final(self)@ == old(self)@,
            },
    {
        let mut i: usize = 0;
        while i < self.factor_vec.len()
            invariant
                *self == *old(self),
                self.wf(),
                i <= self.factor_vec.len(),
                forall|j: int| 0 <= j < i ==> (#[trigger] self@[j]).0 != p,
            decreases self.factor_vec.len() - i,
        {
            if self.factor_vec[i].prime == p {
                proof {
                    lemma_index_of_prime(self@, i as int);
                }
                return Some(&mut self.factor_vec[i]);
            }
            i = i + 1;
        }
        None
    }

    /// Records one more occurrence of the prime `p`: its entry counts one
    /// more, or, where it has none yet, a new entry follows the others.
    pub fn add_factor(&mut self, p: usize)
        requires
            old(self).wf(),
            exponent_of(old(self)@, p as nat) < usize::MAX,
        ensures
            final(self).wf(),
            final(self)@ == with_occurrence(old(self)@, p as nat),
            product(final(self)@) == product(old(self)@) * p,
    {
        proof {
            lemma_with_occurrence(self@, p as nat);
        }
        match self.get_factor(p) {
            Some(f) => f.add_factor(),
            None => {
                let f = Factor::new(p);
                self.factor_vec.push(f);
                assert(self@ =~= old(self)@.push((p as nat, 1nat)));
            },
        }
    }

    /// The number that the factorization multiplies out to.
    pub fn de_factor(&self) -> (r: usize)
        requires
            self.wf(),
            product(self@) <= usize::MAX,
        ensures
            r == product(self@),
    {
        let len = self.factor_vec.len();
        let mut i: usize = 0;
        while i < len
            invariant
                self.wf(),
                len == self@.len(),
                i <= len,
                forall|j: int| 0 <= j < i ==> (#[trigger] self@[j]).0 != 0,
            decreases len - i,
        {
            if self.factor_vec[i].prime == 0 {
                proof {
                    lemma_product_zero(self@, i as int);
                }
                return 0;
            }
            i = i + 1;
        }
        let mut result: usize = 1;
        i = 0;
        assert(self@.take(0) =~= Seq::<(nat, nat)>::empty());
        while i < len
            invariant
                len == self@.len(),
                len == self.factor_vec@.len(),
                i <= len,
                forall|j: int| 0 <= j < len ==> (#[trigger] self@[j]).0 != 0,
                product(self@) <= usize::MAX,
                result == product(self@.take(i as int)),
            decreases len - i,
        {
            proof {
                let front = self@.take(i + 1);
                assert(front.drop_last() =~= self@.take(i as int));
                lemma_product_front(self@, i as int);
                lemma_product_front(self@, i + 1);
                let a = product(self@.take(i as int));
                let b = pow(self@[i as int].0 as int, self@[i as int].1);
                assert(b <= a * b) by (nonlinear_arith)
                    requires
                        a >= 1,
                        a * b >= 1,
                ;
            }
            let power = self.factor_vec[i].de_factor();
            result = result * power;
            i = i + 1;
        }
        assert(self@.take(len as int) =~= self@);
        result
    }

    /// The entries, in the order in which their primes were first added.
    pub fn as_slice(&self) -> (r: &[Factor])
        ensures
            r@.map_values(|f: Factor| f@) == self@,
    {
        self.factor_vec.as_slice()
    }

    /// The factorization as text, as in `[(2, 2), (5, 2)]`.
    pub fn to_string(&self) -> (s: String)
        ensures
            s@ == factors_text(self@),
    {
        let ghost items = self@.map_values(|f: (nat, nat)| factor_text(f));
        let len = self.factor_vec.len();
        let mut out = String::new();
        proof {
            reveal_strlit("[");
            reveal_strlit(", ");
            reveal_strlit("]");
        }
        out.append("[");
        let mut i: usize = 0;
        assert(items.take(0) =~= Seq::<Seq<char>>::empty());
        while i < len
            invariant
                len == self.factor_vec@.len(),
                len == items.len(),
                i <= len,
                items == self@.map_values(|f: (nat, nat)| factor_text(f)),
                out@ == seq!['['] + comma_separated(items.take(i as int)),
                ", "@ == seq![',', ' '],
            decreases len - i,
        {
            proof {
                lemma_comma_separated_step(items, i as int);
            }
            if i > 0 {
                out.append(", ");
            }
            self.factor_vec[i].append_to(&mut out);
            assert(out@ =~= seq!['['] + comma_separated(items.take(i + 1)));
            i = i + 1;
        }
        out.append("]");
        assert(items.take(len as int) =~= items);
        assert(out@ =~= factors_text(self@));
        out
    }
}

} // verus!
