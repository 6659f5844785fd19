//! Primality and factorization as methods of the primitive integer types.
//!
//! A value that is negative, or too large for a `usize`, counts as 0.
use crate::factors::{is_prime_factorization, Factors};
use crate::primes::{grew_until, Primes, PrimesConf};
use vstd::prelude::*;

verus! {

/// The number that stands for the integer `v`: `v` itself where a `usize` can
/// hold it, and 0 where it cannot.
pub open spec fn number_or_zero(v: int) -> nat {
    if 0 <= v <= usize::MAX {
        v as nat
    } else {
        0
    }
}

/// `num::ToPrimitive::to_usize` on a `u128`: the same number as a `usize`
/// where it fits in one, and `None` where it does not.
#[verifier::external_body]
fn u128_to_usize(x: u128) -> (r: Option<usize>)
    ensures
        r == if x <= usize::MAX {
            Some(x as usize)
        } else {
            None::<usize>
        },
{
    num::ToPrimitive::to_usize(&x)
}

/// `num::ToPrimitive::to_usize` on an `i128`: the same number as a `usize`
/// where it is not negative and fits in one, and `None` otherwise.
#[verifier::external_body]
fn i128_to_usize(x: i128) -> (r: Option<usize>)
    ensures
        r == if 0 <= x <= usize::MAX {
            Some(x as usize)
        } else {
            None::<usize>
        },
{
    num::ToPrimitive::to_usize(&x)
}

/// The number that stands for an unsigned integer.
pub fn number_of_unsigned(x: u128) -> (n: usize)
    ensures
        n == number_or_zero(x as int),
{
    match u128_to_usize(x) {
        Some(n) => n,
        None => 0,
    }
}

/// The number that stands for a signed integer.
pub fn number_of_signed(x: i128) -> (n: usize)
    ensures
        n == number_or_zero(x as int),
{
    match i128_to_usize(x) {
        Some(n) => n,
        None => 0,
    }
}

/// Whether `n` is prime, decided with a cache of its own that grows by one
/// prime per round and is dropped afterwards.
pub fn is_prime_once(n: usize) -> (b: bool)
    ensures
        b == crate::number_theory::is_prime(n as int),
{
    let mut primes: Primes = Primes::new();
    primes.set_policy(PrimesConf::Constant);
    primes.n_is_prime(n)
}

/// The prime factorization of `n`, found with a cache of its own that grows
/// by one prime per round and is dropped afterwards.
pub fn get_factors_once(n: usize) -> (f: Factors)
    ensures
        f.wf(),
        n <= 1 ==> f@ == Seq::<(nat, nat)>::empty(),
        n > 1 ==> is_prime_factorization(f@, n as int),
        crate::number_theory::is_prime(n as int) ==> f@ == seq![(n as nat, 1nat)],
{
    let mut primes: Primes = Primes::new();
    primes.set_policy(PrimesConf::Constant);
    primes.factorice_number(n)
}

/// Primality and factorization of an integer, either with a cache of the
/// caller's that keeps what it learns, or with one made for the call.
pub trait Prime {
    /// The number that the methods speak of.
    spec fn number(&self) -> nat;

    /// Whether the number is prime, decided with a cache made for the call.
    fn is_prime(&self) -> (b: bool)
        ensures
            b == crate::number_theory::is_prime(self.number() as int),
    ;

    /// Whether the number is prime. The cache `ps` grows until it reaches
    /// the number.
    fn is_prime_(&self, ps: &mut Primes) -> (b: bool)
        requires
            old(ps).wf(),
        ensures
            b == crate::number_theory::is_prime(self.number() as int),
            final(ps).wf(),
            final(ps).policy() == old(ps).policy(),
            exists|rounds: nat|
                grew_until(old(ps)@, final(ps)@, old(ps).policy(), self.number() as int, rounds),
    ;

    /// The prime factorization of the number, found with a cache made for
    /// the call; 0 and 1 get no entries.
    fn get_factors(&self) -> (f: Factors)
        ensures
            f.wf(),
            self.number() <= 1 ==> f@ == Seq::<(nat, nat)>::empty(),
            self.number() > 1 ==> is_prime_factorization(f@, self.number() as int),
            crate::number_theory::is_prime(self.number() as int) ==> f@ == seq![
                (self.number(), 1nat),
            ],
    ;

    /// The prime factorization of the number; 0 and 1 get no entries. For a
    /// number from 2 on the cache `ps` grows until it reaches the number.
    fn get_factors_(&self, ps: &mut Primes) -> (f: Factors)
        requires
            old(ps).wf(),
        ensures
            final(ps).wf(),
            final(ps).policy() == old(ps).policy(),
            self.number() <= 1 ==> final(ps)@ == old(ps)@,
            self.number() > 1 ==> exists|rounds: nat|
                grew_until(old(ps)@, final(ps)@, old(ps).policy(), self.number() as int, rounds),
            f.wf(),
            self.number() <= 1 ==> f@ == Seq::<(nat, nat)>::empty(),
            self.number() > 1 ==> is_prime_factorization(f@, self.number() as int),
            crate::number_theory::is_prime(self.number() as int) ==> f@ == seq![
                (self.number(), 1nat),
            ],
    ;
}

impl Prime for u8 {
    open spec fn number(&self) -> nat {
        number_or_zero(*self as int)
    }

    fn is_prime(&self) -> (b: bool) {
        is_prime_once(number_of_unsigned(*self as u128))
    }

    fn is_prime_(&self, ps: &mut Primes) -> (b: bool) {
        ps.n_is_prime(number_of_unsigned(*self as u128))
    }

    fn get_factors(&self) -> (f: Factors) {
        get_factors_once(number_of_unsigned(*self as u128))
    }

    fn get_factors_(&self, ps: &mut Primes) -> (f: Factors) {
        ps.factorice_number(number_of_unsigned(*self as u128))
    }
}

impl Prime for u16 {
    open spec fn number(&self) -> nat {
        number_or_zero(*self as int)
    }

    fn is_prime(&self) -> (b: bool) {
        is_prime_once(number_of_unsigned(*self as u128))
    }

    fn is_prime_(&self, ps: &mut Primes) -> (b: bool) {
        ps.n_is_prime(number_of_unsigned(*self as u128))
    }

    fn get_factors(&self) -> (f: Factors) {
        get_factors_once(number_of_unsigned(*self as u128))
    }

    fn get_factors_(&self, ps: &mut Primes) -> (f: Factors) {
        ps.factorice_number(number_of_unsigned(*self as u128))
    }
}

impl Prime for u32 {
    open spec fn number(&self) -> nat {
        number_or_zero(*self as int)
    }

    fn is_prime(&self) -> (b: bool) {
        is_prime_once(number_of_unsigned(*self as u128))
    }

    fn is_prime_(&self, ps: &mut Primes) -> (b: bool) {
        ps.n_is_prime(number_of_unsigned(*self as u128))
    }

    fn get_factors(&self) -> (f: Factors) {
        get_factors_once(number_of_unsigned(*self as u128))
    }

    fn get_factors_(&self, ps: &mut Primes) -> (f: Factors) {
        ps.factorice_number(number_of_unsigned(*self as u128))
    }
}

impl Prime for u64 {
    open spec fn number(&self) -> nat {
        number_or_zero(*self as int)
    }

    fn is_prime(&self) -> (b: bool) {
        is_prime_once(number_of_unsigned(*self as u128))
    }

    fn is_prime_(&self, ps: &mut Primes) -> (b: bool) {
        ps.n_is_prime(number_of_unsigned(*self as u128))
    }

    fn get_factors(&self) -> (f: Factors) {
        get_factors_once(number_of_unsigned(*self as u128))
    }

    fn get_factors_(&self, ps: &mut Primes) -> (f: Factors) {
        ps.factorice_number(number_of_unsigned(*self as u128))
    }
}

impl Prime for u128 {
    open spec fn number(&self) -> nat {
        number_or_zero(*self as int)
    }

    fn is_prime(&self) -> (b: bool) {
        is_prime_once(number_of_unsigned(*self as u128))
    }

    fn is_prime_(&self, ps: &mut Primes) -> (b: bool) {
        ps.n_is_prime(number_of_unsigned(*self as u128))
    }

    fn get_factors(&self) -> (f: Factors) {
        get_factors_once(number_of_unsigned(*self as u128))
    }

    fn get_factors_(&self, ps: &mut Primes) -> (f: Factors) {
        ps.factorice_number(number_of_unsigned(*self as u128))
    }
}

impl Prime for usize {
    open spec fn number(&self) -> nat {
        number_or_zero(*self as int)
    }

    fn is_prime(&self) -> (b: bool) {
        is_prime_once(number_of_unsigned(*self as u128))
    }

    fn is_prime_(&self, ps: &mut Primes) -> (b: bool) {
        ps.n_is_prime(number_of_unsigned(*self as u128))
    }

    fn get_factors(&self) -> (f: Factors) {
        get_factors_once(number_of_unsigned(*self as u128))
    }

    fn get_factors_(&self, ps: &mut Primes) -> (f: Factors) {
        ps.factorice_number(number_of_unsigned(*self as u128))
    }
}

impl Prime for i8 {
    open spec fn number(&self) -> nat {
        number_or_zero(*self as int)
    }

    fn is_prime(&self) -> (b: bool) {
        is_prime_once(number_of_signed(*self as i128))
    }

    fn is_prime_(&self, ps: &mut Primes) -> (b: bool) {
        ps.n_is_prime(number_of_signed(*self as i128))
    }

    fn get_factors(&self) -> (f: Factors) {
        get_factors_once(number_of_signed(*self as i128))
    }

    fn get_factors_(&self, ps: &mut Primes) -> (f: Factors) {
        ps.factorice_number(number_of_signed(*self as i128))
    }
}

impl Prime for i16 {
    open spec fn number(&self) -> nat {
        number_or_zero(*self as int)
    }

    fn is_prime(&self) -> (b: bool) {
        is_prime_once(number_of_signed(*self as i128))
    }

    fn is_prime_(&self, ps: &mut Primes) -> (b: bool) {
        ps.n_is_prime(number_of_signed(*self as i128))
    }

    fn get_factors(&self) -> (f: Factors) {
        get_factors_once(number_of_signed(*self as i128))
    }

    fn get_factors_(&self, ps: &mut Primes) -> (f: Factors) {
        ps.factorice_number(number_of_signed(*self as i128))
    }
}

impl Prime for i32 {
    open spec fn number(&self) -> nat {
        number_or_zero(*self as int)
    }

    fn is_prime(&self) -> (b: bool) {
        is_prime_once(number_of_signed(*self as i128))
    }

    fn is_prime_(&self, ps: &mut Primes) -> (b: bool) {
        ps.n_is_prime(number_of_signed(*self as i128))
    }

    fn get_factors(&self) -> (f: Factors) {
        get_factors_once(number_of_signed(*self as i128))
    }

    fn get_factors_(&self, ps: &mut Primes) -> (f: Factors) {
        ps.factorice_number(number_of_signed(*self as i128))
    }
}

impl Prime for i64 {
    open spec fn number(&self) -> nat {
        number_or_zero(*self as int)
    }

    fn is_prime(&self) -> (b: bool) {
        is_prime_once(number_of_signed(*self as i128))
    }

    fn is_prime_(&self, ps: &mut Primes) -> (b: bool) {
        ps.n_is_prime(number_of_signed(*self as i128))
    }

    fn get_factors(&self) -> (f: Factors) {
        get_factors_once(number_of_signed(*self as i128))
    }

    fn get_factors_(&self, ps: &mut Primes) -> (f: Factors) {
        ps.factorice_number(number_of_signed(*self as i128))
    }
}

impl Prime for i128 {
    open spec fn number(&self) -> nat {
        number_or_zero(*self as int)
    }

    fn is_prime(&self) -> (b: bool) {
        is_prime_once(number_of_signed(*self as i128))
    }

    fn is_prime_(&self, ps: &mut Primes) -> (b: bool) {
        ps.n_is_prime(number_of_signed(*self as i128))
    }

    fn get_factors(&self) -> (f: Factors) {
        get_factors_once(number_of_signed(*self as i128))
    }

    fn get_factors_(&self, ps: &mut Primes) -> (f: Factors) {
        ps.factorice_number(number_of_signed(*self as i128))
    }
}

impl Prime for isize {
    open spec fn number(&self) -> nat {
        number_or_zero(*self as int)
    }

    fn is_prime(&self) -> (b: bool) {
        is_prime_once(number_of_signed(*self as i128))
    }

    fn is_prime_(&self, ps: &mut Primes) -> (b: bool) {
        ps.n_is_prime(number_of_signed(*self as i128))
    }

    fn get_factors(&self) -> (f: Factors) {
        get_factors_once(number_of_signed(*self as i128))
    }

    fn get_factors_(&self, ps: &mut Primes) -> (f: Factors) {
        ps.factorice_number(number_of_signed(*self as i128))
    }
}

} // verus!
