//! Incremental prime generation, primality testing and factorization by trial
//! division over a growable cache of primes.
//!
//! * [`primes::Primes`] is the cache: a gap-free, increasing table of primes
//!   together with the policy that decides how fast it grows.
//! * [`factors::Factors`] holds a factorization as distinct primes with their
//!   exponents.
//! * [`qck_div_chk::QckDiv`] answers divisibility by 2, 3, 5 and 7 from the
//!   decimal digits of a number.
//! * [`integers::Prime`] offers primality and factorization as methods of the
//!   primitive integer types.
//! * [`number_theory`], [`table`] and [`uniqueness`] hold the definitions that
//!   the contracts are stated in, and the facts about them.
//! * [`text`] holds the textual form of numbers and lists.
//!
//! All numbers are `usize`. No operation overflows: squares are compared by
//! division, and a cache that has used up the primes of a `usize` says so.
pub mod factors;
pub mod integers;
pub mod number_theory;
pub mod primes;
pub mod qck_div_chk;
pub mod table;
pub mod text;
pub mod uniqueness;
