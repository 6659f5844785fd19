//! The cache of primes: a table of primes that grows on demand, and the
//! primality test and factorization that read it.
use crate::factors::{
    increasing_primes, is_prime_factorization, lemma_exponent_below_power, lemma_index_of_prime,
    lemma_product_positive_primes, lemma_product_push, prime_entries, product, Factors,
};
use crate::number_theory::{
    divides, is_prime, lemma_divides_product, lemma_divides_quotient, lemma_divisor_at_most,
    lemma_even_not_prime, lemma_prime_by_trial_division, lemma_prime_count_across_gap,
    lemma_prime_count_equal, lemma_prime_count_monotonic, lemma_prime_divisor,
    lemma_prime_is_two_or_odd, lemma_smaller_square, lemma_square_and_quotient, no_prime_between,
    prime_count,
};
use crate::qck_div_chk::QckDiv;
use crate::table::{
    is_prime_table, lemma_seed_is_prime_table, lemma_seed_prefix_max,
    lemma_table_entry_lower_bound, lemma_table_len, lemma_table_membership, lemma_table_push,
    lemma_table_trial_division, lists, seed,
};
use crate::text::{
    append_decimal, bracketed, comma_separated, decimal, lemma_comma_separated_step,
};
use vstd::arithmetic::power::pow;
use vstd::arithmetic::power2::{lemma2_to64, lemma_pow2_unfold, pow2};
use vstd::prelude::*;
use vstd::string::StringExecFns;

verus! {

/// How many primes a cache adds per round when a query lies beyond it.
#[derive(Debug, Clone, Copy, PartialEq, Eq)]
pub enum PrimesConf {
    /// Every round adds as many primes as the round before.
    Constant,
    /// Every round adds one prime more than the round before.
    Linear,
    /// Every round adds twice as many primes as the round before.
    Exponential,
}

impl PrimesConf {
    /// The size of the round that follows a round of size `previous`.
    pub open spec fn next_size(self, previous: nat) -> nat {
        match self {
            PrimesConf::Constant => previous,
            PrimesConf::Linear => previous + 1,
            PrimesConf::Exponential => previous * 2,
        }
    }

    /// The number of primes that round `k` asks for; rounds count from 0, and
    /// the first asks for one prime.
    pub open spec fn round_size(self, k: nat) -> nat
        decreases k,
    {
        if k == 0 {
            1
        } else {
            self.next_size(self.round_size((k - 1) as nat))
        }
    }

    /// The number of primes that the first `k` rounds ask for together.
    pub open spec fn planned(self, k: nat) -> nat
        decreases k,
    {
        if k == 0 {
            0
        } else {
            self.planned((k - 1) as nat) + self.round_size((k - 1) as nat)
        }
    }

    /// The size of the round that follows a round of size `previous`.
    pub fn next_round_size(&self, previous: usize) -> (next: usize)
        requires
            self.next_size(previous as nat) <= usize::MAX,
        ensures
            next == self.next_size(previous as nat),
    {
        match self {
            PrimesConf::Constant => previous,
            PrimesConf::Linear => previous + 1,
            PrimesConf::Exponential => previous * 2,
        }
    }

    /// Every round asks for at least one prime, so `k` rounds ask for at
    /// least `k`.
    pub proof fn lemma_rounds_make_progress(self, k: nat)
        ensures
            self.round_size(k) >= 1,
            self.planned(k) >= k,
        decreases k,
    {
        if k > 0 {
            self.lemma_rounds_make_progress((k - 1) as nat);
        }
    }

    /// Under the constant policy the round size never changes: every round
    /// asks for one prime, and `k` rounds for `k`.
    pub proof fn lemma_constant_rounds(k: nat)
        ensures
            PrimesConf::Constant.round_size(k) == 1,
            PrimesConf::Constant.planned(k) == k,
        decreases k,
    {
        if k > 0 {
            Self::lemma_constant_rounds((k - 1) as nat);
        }
    }

    /// Under the linear policy round `k` asks for `k + 1` primes, and the
    /// first `k` rounds for `k * (k + 1) / 2`.
    pub proof fn lemma_linear_rounds(k: nat)
        ensures
            PrimesConf::Linear.round_size(k) == k + 1,
            2 * PrimesConf::Linear.planned(k) == k * (k + 1),
        decreases k,
    {
        if k > 0 {
            let j = (k - 1) as nat;
            Self::lemma_linear_rounds(j);
            assert(PrimesConf::Linear.planned(k) == PrimesConf::Linear.planned(j) + k);
            assert(j * (j + 1) + 2 * k == k * (k + 1)) by (nonlinear_arith)
                requires
                    j == k - 1,
            ;
        } else {
            assert(k * (k + 1) == 0) by (nonlinear_arith)
                requires
                    k == 0,
            ;
        }
    }

    /// Under the exponential policy round `k` asks for `2^k` primes, and the
    /// first `k` rounds for `2^k - 1`.
    pub proof fn lemma_exponential_rounds(k: nat)
        ensures
            PrimesConf::Exponential.round_size(k) == pow2(k),
            PrimesConf::Exponential.planned(k) == pow2(k) - 1,
        decreases k,
    {
        if k > 0 {
            Self::lemma_exponential_rounds((k - 1) as nat);
            lemma_pow2_unfold(k);
        } else {
            lemma2_to64();
        }
    }
}

/// What growing until `target` makes of a cache: `before` becomes `after` in
/// `rounds` rounds of the sizes that `policy` plans, the last of them cut
/// short where the primes that fit in a `usize` run out, and no round is run
/// once the largest prime has reached `target`.
pub open spec fn grew_until(
    before: Seq<usize>,
    after: Seq<usize>,
    policy: PrimesConf,
    target: int,
    rounds: nat,
) -> bool {
    let wanted = before.len() + policy.planned(rounds);
    let limit = prime_count(usize::MAX as int);
    &&& before.is_prefix_of(after)
    &&& after.len() == if wanted <= limit {
        wanted
    } else {
        limit
    }
    &&& after.last() >= target || after.len() == limit
    &&& rounds == 0 <==> before.last() >= target
    &&& rounds > 0 ==> {
        let reached = before.len() + policy.planned((rounds - 1) as nat);
        reached <= after.len() && after[reached - 1] < target
    }
}

/// A table of primes as text: its entries in decimal, as a list.
pub open spec fn primes_text(s: Seq<usize>) -> Seq<char> {
    bracketed(s.map_values(|p: usize| decimal(p as nat)))
}

/// The primes that fit in a `usize` are used up: the cache holds all of them.
#[derive(Debug, Clone, Copy, PartialEq, Eq)]
pub struct OutOfRange;

/// A cache of the first primes, in increasing order and without gaps.
pub struct Primes {
    pub primes_conf: PrimesConf,
    primes_vec: Vec<usize>,
}

impl View for Primes {
    type V = Seq<usize>;

    closed spec fn view(&self) -> Seq<usize> {
        self.primes_vec@
    }
}

impl Primes {
    /// The cache holds exactly the primes up to its last entry, in increasing
    /// order, and these include the seed.
    pub open spec fn wf(&self) -> bool {
        &&& is_prime_table(self@)
        &&& seed().is_prefix_of(self@)
    }

    /// The largest prime in the cache.
    pub open spec fn max(&self) -> int {
        self@.last() as int
    }

    /// The growth policy in force.
    pub closed spec fn policy(&self) -> PrimesConf {
        self.primes_conf
    }

    /// A cache of the primes up to 199 that grows exponentially.
    pub fn new() -> (r: Primes)
        ensures
            r.wf(),
            r@ == seed(),
            r.policy() == PrimesConf::Exponential,
    {
        let primes_vec: Vec<usize> = vec![
            2, 3, 5, 7, 11, 13, 17, 19, 23, 29, 31, 37, 41, 43, 47, 53, 59, 61, 67, 71, 73, 79,
            83, 89, 97, 101, 103, 107, 109, 113, 127, 131, 137, 139, 149, 151, 157, 163, 167,
            173, 179, 181, 191, 193, 197, 199,
        ];
        proof {
            assert(primes_vec@ =~= seed()) by {
                reveal(seed);
            }
            lemma_seed_is_prime_table();
        }
        Primes { primes_vec, primes_conf: PrimesConf::Exponential }
    }

    /// Whether `candidate`, an odd number beyond the cache, is prime, found by
    /// dividing it by the cached primes in increasing order until one divides
    /// it or has a square beyond it.
    ///
    /// The cache always reaches that far, since the prime after `p` is smaller
    /// than `2 * p`. That fact is not proved here, so where the cache ends the
    /// search goes on with the odd numbers that follow it.
    fn survives_trial_division(&self, candidate: usize) -> (r: bool)
        requires
            is_prime_table(self@),
            self.max() >= 3,
            candidate > self.max(),
            candidate % 2 == 1,
        ensures
            r == is_prime(candidate as int),
    {
        let len = self.primes_vec.len();
        let mut i: usize = 0;
        while i < len
            invariant
                is_prime_table(self@),
                len == self.primes_vec@.len(),
                len == self@.len(),
                i <= len,
                candidate > self.max(),
                forall|j: int|
                    0 <= j < i ==> !divides(#[trigger] self@[j] as int, candidate as int),
            decreases len - i,
        {
            let p = self.primes_vec[i];
            proof {
                assert(is_prime(self@[i as int] as int));
                if i < len - 1 {
                    assert(self@[i as int] < self@[len - 1]);
                }
                lemma_square_and_quotient(p as int, candidate as int);
            }
            if candidate % p == 0 {
                assert(divides(p as int, candidate as int));
                return false;
            }
            if p > candidate / p {
                proof {
                    lemma_table_trial_division(self@, candidate as int, i as int);
                }
                return true;
            }
            i = i + 1;
        }
        let mut d: usize = self.primes_vec[len - 1];
        proof {
            assert(is_prime(self@[len - 1] as int));
            lemma_prime_is_two_or_odd(d as int);
            assert forall|p: int| is_prime(p) && p <= d implies !#[trigger] divides(
                p,
                candidate as int,
            ) by {
                assert(lists(self@, p));
            }
        }
        while d <= candidate / d
            invariant
                d >= 3,
                d % 2 == 1,
                d < candidate,
                forall|p: int| is_prime(p) && p <= d ==> !#[trigger] divides(p, candidate as int),
            decreases candidate - d,
        {
            proof {
                lemma_square_and_quotient(d as int, candidate as int);
                assert(d + 2 < d * d) by (nonlinear_arith)
                    requires
                        d >= 3,
                ;
                lemma_even_not_prime(d + 1);
            }
            d = d + 2;
            if candidate % d == 0 {
                assert(divides(d as int, candidate as int));
                return false;
            }
        }
        proof {
            lemma_square_and_quotient(d as int, candidate as int);
            assert forall|p: int| is_prime(p) && p * p <= candidate implies !#[trigger] divides(
                p,
                candidate as int,
            ) by {
                lemma_smaller_square(p, d as int);
            }
            lemma_prime_by_trial_division(candidate as int);
        }
        true
    }

    /// The first prime after the largest cached one, or `None` when no
    /// `usize` beyond the cache is prime.
    ///
    /// Only odd candidates are tried. Each is first tested by its digits for
    /// the divisors 2, 3, 5 and 7, and only then divided by the cached primes.
    fn next_prime(&self) -> (r: Option<usize>)
        requires
            self.wf(),
        ensures
            match r {
                Some(p) => {
                    &&& p > self.max()
                    &&& is_prime(p as int)
                    &&& no_prime_between(self.max(), p as int)
                },
                None => no_prime_between(self.max(), usize::MAX + 1),
            },
    {
        let mut candidate: usize = self.primes_vec[self.primes_vec.len() - 1];
        proof {
            lemma_seed_prefix_max(self@);
            assert(is_prime(self@[self@.len() - 1] as int));
            lemma_prime_is_two_or_odd(candidate as int);
        }
        loop
            invariant
                self.wf(),
                candidate >= self.max(),
                self.max() >= 199,
                candidate % 2 == 1,
                no_prime_between(self.max(), candidate + 1),
            decreases usize::MAX - candidate,
        {
            proof {
                lemma_even_not_prime(candidate + 1);
            }
            if candidate > usize::MAX - 2 {
                return None;
            }
            candidate = candidate + 2;
            if QckDiv::Two.check_div(candidate) {
                continue ;
            }
            if QckDiv::Three.check_div(candidate) {
                assert(divides(3, candidate as int));
                continue ;
            }
            if QckDiv::Five.check_div(candidate) {
                assert(divides(5, candidate as int));
                continue ;
            }
            if QckDiv::Seven.check_div(candidate) {
                assert(divides(7, candidate as int));
                continue ;
            }
            if self.survives_trial_division(candidate) {
                return Some(candidate);
            }
        }
    }

    /// Appends the next `n` primes to the cache, found in increasing order.
    ///
    /// Fails when fewer than `n` primes beyond the cache fit in a `usize`;
    /// the cache then holds every prime that does.
    pub fn add_n_more_primes(&mut self, n: usize) -> (r: Result<(), OutOfRange>)
        requires
            old(self).wf(),
        ensures
            final(self).wf(),
            final(self).policy() == old(self).policy(),
            old(self)@.is_prefix_of(final(self)@),
            r is Ok <==> old(self)@.len() + n <= prime_count(usize::MAX as int),
            r is Ok ==> final(self)@.len() == old(self)@.len() + n,
            r is Err ==> final(self)@.len() == prime_count(usize::MAX as int),
            final(self)@.len() > old(self)@.len() ==> final(self).max() > old(self).max(),
            n > 0 && r is Ok ==> final(self).max() > old(self).max(),
    {
        let mut added: usize = 0;
        while added < n
            invariant
                self.wf(),
                self.policy() == old(self).policy(),
                old(self)@.is_prefix_of(self@),
                added <= n,
                self@.len() == old(self)@.len() + added,
                added > 0 ==> self.max() > old(self).max(),
            decreases n - added,
        {
            match self.next_prime() {
                Some(p) => {
                    proof {
                        lemma_table_push(self@, p);
                    }
                    self.primes_vec.push(p);
                    added = added + 1;
                },
                None => {
                    proof {
                        lemma_table_len(self@);
                        lemma_prime_count_across_gap(self.max(), usize::MAX + 1);
                    }
                    return Err(OutOfRange);
                },
            }
        }
        proof {
            lemma_table_len(self@);
            lemma_prime_count_monotonic(self.max(), usize::MAX as int);
        }
        Ok(())
    }

    /// Appends the next prime to the cache.
    pub fn one_more(&mut self) -> (r: Result<(), OutOfRange>)
        requires
            old(self).wf(),
        ensures
            final(self).wf(),
            final(self).policy() == old(self).policy(),
            old(self)@.is_prefix_of(final(self)@),
            r is Ok <==> old(self)@.len() + 1 <= prime_count(usize::MAX as int),
            r is Ok ==> final(self)@.len() == old(self)@.len() + 1,
            r is Err ==> final(self)@ == old(self)@,
            r is Ok ==> final(self).max() > old(self).max(),
    {
        self.add_n_more_primes(1)
    }

    /// Changes the growth policy. The primes in the cache stay as they are.
    pub fn set_policy(&mut self, policy: PrimesConf)
        ensures
            final(self).policy() == policy,
            final(self)@ == old(self)@,
    {
        self.primes_conf = policy;
    }

    /// The cached primes, in increasing order.
    pub fn as_slice(&self) -> (r: &[usize])
        ensures
            r@ == self@,
    {
        self.primes_vec.as_slice()
    }

    /// The cached primes as text, as in `[2, 3, 5, 7]`.
    pub fn to_string(&self) -> (s: String)
        ensures
            s@ == primes_text(self@),
    {
        let ghost items = self@.map_values(|p: usize| decimal(p as nat));
        let len = self.primes_vec.len();
        let mut out = String::new();
        proof {
            reveal_strlit("[");
            reveal_strlit(", ");
            reveal_strlit("]");
        }
        out.append("[");
        let mut i: usize = 0;
        assert(items.take(0) =~= Seq::<Seq<char>>::empty());
        while i < len
            invariant
                len == self.primes_vec@.len(),
                len == items.len(),
                i <= len,
                items == self@.map_values(|p: usize| decimal(p as nat)),
                out@ == seq!['['] + comma_separated(items.take(i as int)),
                ", "@ == seq![',', ' '],
            decreases len - i,
        {
            proof {
                lemma_comma_separated_step(items, i as int);
            }
            if i > 0 {
                out.append(", ");
            }
            append_decimal(&mut out, self.primes_vec[i]);
            assert(out@ =~= seq!['['] + comma_separated(items.take(i + 1)));
            i = i + 1;
        }
        out.append("]");
        assert(items.take(len as int) =~= items);
        assert(out@ =~= primes_text(self@));
        out
    }

    /// Grows the cache until its largest prime is at least `target`, and
    /// returns the number of rounds that took.
    ///
    /// The first round asks for one prime; the policy sets the size of each
    /// round after it. Growth also ends where the primes that fit in a
    /// `usize` run out.
    pub fn grow_until(&mut self, target: usize) -> (rounds: usize)
        requires
            old(self).wf(),
        ensures
            final(self).wf(),
            final(self).policy() == old(self).policy(),
            grew_until(old(self)@, final(self)@, old(self).policy(), target as int, rounds as nat),
            old(self).policy() == PrimesConf::Exponential && rounds > 0 ==> pow2(
                (rounds - 1) as nat,
            ) < target,
    {
        let ghost policy = self.policy();
        let ghost before = self@;
        let ghost limit = prime_count(usize::MAX as int);
        let mut counter: usize = 1;
        let mut rounds: usize = 0;
        let mut last_prime: usize = self.primes_vec[self.primes_vec.len() - 1];
        proof {
            lemma_table_len(self@);
            lemma_prime_count_monotonic(self.max(), usize::MAX as int);
            lemma_seed_prefix_max(self@);
        }
        while target > last_prime
            invariant
                self.wf(),
                old(self).wf(),
                before == old(self)@,
                policy == old(self).policy(),
                self.policy() == policy,
                self.primes_conf == policy,
                limit == prime_count(usize::MAX as int),
                before.is_prefix_of(self@),
                last_prime == self.max(),
                counter == policy.round_size(rounds as nat),
                1 <= counter <= self@.len(),
                self@.len() == before.len() + policy.planned(rounds as nat),
                self@.len() <= limit,
                self@.len() <= usize::MAX,
                rounds <= policy.planned(rounds as nat),
                before.len() >= 1,
                rounds == 0 ==> self@ == before,
                rounds > 0 ==> before.last() < target,
                rounds > 0 ==> {
                    let reached = before.len() + policy.planned((rounds - 1) as nat);
                    reached <= self@.len() && self@[reached - 1] < target
                },
            decreases usize::MAX - last_prime,
        {
            let ghost start = self@;
            proof {
                policy.lemma_rounds_make_progress((rounds + 1) as nat);
            }
            let grown = self.add_n_more_primes(counter);
            proof {
                assert(self@[start.len() - 1] == start[start.len() - 1]);
                assert(before.is_prefix_of(self@)) by {
                    assert(before =~= start.subrange(0, before.len() as int));
                    assert(start =~= self@.subrange(0, start.len() as int));
                    assert(before =~= self@.subrange(0, before.len() as int));
                }
            }
            rounds = rounds + 1;
            if grown.is_err() {
                proof {
                    if policy == PrimesConf::Exponential {
                        Self::lemma_exponential_bound(before, self@, target as int, rounds as nat);
                    }
                }
                return rounds;
            }
            let len = self.primes_vec.len();
            assert(len == start.len() + counter);
            counter = self.primes_conf.next_round_size(counter);
            last_prime = self.primes_vec[len - 1];
            proof {
                lemma_table_len(self@);
                lemma_prime_count_monotonic(self.max(), usize::MAX as int);
            }
        }
        proof {
            if policy == PrimesConf::Exponential {
                Self::lemma_exponential_bound(before, self@, target as int, rounds as nat);
            }
        }
        rounds
    }

    /// Under the exponential policy the number of rounds is logarithmic in
    /// the target: growth that took `rounds` rounds had a target beyond
    /// `2^(rounds - 1)`.
    pub proof fn lemma_exponential_bound(
        before: Seq<usize>,
        after: Seq<usize>,
        target: int,
        rounds: nat,
    )
        requires
            is_prime_table(after),
            before.len() >= 1,
            grew_until(before, after, PrimesConf::Exponential, target, rounds),
        ensures
            rounds > 0 ==> pow2((rounds - 1) as nat) < target,
    {
        if rounds > 0 {
            let k = (rounds - 1) as nat;
            PrimesConf::lemma_exponential_rounds(k);
            let reached = before.len() + PrimesConf::Exponential.planned(k);
            lemma_table_entry_lower_bound(after, reached - 1);
        }
    }

    /// Whether `n` is prime. The cache first grows until it reaches `n`.
    pub fn n_is_prime(&mut self, n: usize) -> (b: bool)
        requires
            old(self).wf(),
        ensures
            b == is_prime(n as int),
            final(self).wf(),
            final(self).policy() == old(self).policy(),
            exists|rounds: nat|
                grew_until(old(self)@, final(self)@, old(self).policy(), n as int, rounds),
    {
        let rounds = self.grow_until(n);
        assert(grew_until(old(self)@, self@, old(self).policy(), n as int, rounds as nat));
        let found = self.holds(n);
        proof {
            lemma_table_membership(self@, n as int);
            if n > self.max() {
                lemma_table_len(self@);
                lemma_prime_count_equal(self.max(), usize::MAX as int);
            }
        }
        found
    }

    /// Whether `n` is one of the cached primes.
    fn holds(&self, n: usize) -> (b: bool)
        ensures
            b == lists(self@, n as int),
    {
        let mut i: usize = 0;
        while i < self.primes_vec.len()
            invariant
                i <= self@.len(),
                forall|j: int| 0 <= j < i ==> #[trigger] self@[j] != n,
            decreases self@.len() - i,
        {
            if self.primes_vec[i] == n {
                return true;
            }
            i = i + 1;
        }
        false
    }

    /// The prime factorization of `num`; 0 and 1 have none, and get no
    /// entries.
    ///
    /// The cache first grows until it reaches `num`. A prime is its own
    /// factorization. Any other number is divided by the cached primes in
    /// increasing order, by each as often as it goes, until 1 is left.
    pub fn factorice_number(&mut self, num: usize) -> (f: Factors)
        requires
            old(self).wf(),
        ensures
            final(self).wf(),
            final(self).policy() == old(self).policy(),
            num <= 1 ==> final(self)@ == old(self)@,
            num > 1 ==> exists|rounds: nat|
                grew_until(old(self)@, final(self)@, old(self).policy(), num as int, rounds),
            f.wf(),
            num <= 1 ==> f@ == Seq::<(nat, nat)>::empty(),
            num > 1 ==> is_prime_factorization(f@, num as int),
            is_prime(num as int) ==> f@ == seq![(num as nat, 1nat)],
    {
        let mut number: usize = num;
        let mut result: Factors = Factors::new();
        if num <= 1 {
            return result;
        }
        if self.n_is_prime(num) {
            result.add_factor(num);
            proof {
                assert(result@ =~= seq![(num as nat, 1nat)]);
                lemma_product_push(Seq::<(nat, nat)>::empty(), num as nat);
            }
            return result;
        }
        let len = self.primes_vec.len();
        let mut i: usize = 0;
        assert(number * product(result@) == num) by (nonlinear_arith)
            requires
                number == num,
                product(result@) == 1,
        ;
        while i < len && number > 1
            invariant
                is_prime_table(self@),
                len == self@.len(),
                len == self.primes_vec@.len(),
                i <= len,
                1 <= number <= num,
                number * product(result@) == num,
                result.wf(),
                increasing_primes(result@),
                prime_entries(result@),
                i > 0 ==> forall|k: int|
                    0 <= k < result@.len() ==> (#[trigger] result@[k]).0 <= self@[i - 1],
                i == 0 ==> result@.len() == 0,
                forall|j: int| 0 <= j < i ==> !divides(#[trigger] self@[j] as int, number as int),
            decreases len - i,
        {
            let p = self.primes_vec[i];
            let ghost earlier = result@;
            let ghost mut e: nat = 0;
            proof {
                assert(is_prime(self@[i as int] as int));
                assert forall|k: int| 0 <= k < earlier.len() implies (#[trigger] earlier[k]).0
                    < p by {
                    if i > 0 {
                        assert(self@[i - 1] < self@[i as int]);
                    }
                }
                lemma_product_positive_primes(earlier);
            }
            while number % p == 0
                invariant
                    i < self@.len(),
                    p >= 2,
                    is_prime(p as int),
                    1 <= number <= num,
                    number * product(result@) == num,
                    result.wf(),
                    product(earlier) >= 1,
                    forall|k: int| 0 <= k < earlier.len() ==> (#[trigger] earlier[k]).0 < p,
                    e == 0 ==> result@ == earlier,
                    e > 0 ==> result@ == earlier.push((p as nat, e)),
                    forall|j: int|
                        0 <= j < i ==> !divides(#[trigger] self@[j] as int, number as int),
                decreases number,
            {
                let ghost held = result@;
                let ghost whole = number;
                proof {
                    lemma_divides_quotient(p as int, number as int);
                    lemma_divisor_at_most(p as int, number as int);
                    if e > 0 {
                        lemma_index_of_prime(held, earlier.len() as int);
                        assert(earlier.push((p as nat, e)).drop_last() =~= earlier);
                        lemma_exponent_below_power(p as int, e);
                        let a = product(earlier);
                        let b = pow(p as int, e);
                        assert(b <= num) by (nonlinear_arith)
                            requires
                                number * (a * b) == num,
                                number >= 1,
                                a >= 1,
                                b >= 0,
                        ;
                    }
                }
                result.add_factor(p);
                number = number / p;
                proof {
                    if e > 0 {
                        assert(result@ =~= earlier.push((p as nat, e + 1)));
                    }
                    e = e + 1;
                    assert(1 <= number < whole) by (nonlinear_arith)
                        requires
                            whole == p * number,
                            p >= 2,
                            whole >= 1,
                    ;
                    let q = product(held);
                    assert(number * (q * p) == num) by (nonlinear_arith)
                        requires
                            whole * q == num,
                            whole == p * number,
                    ;
                    assert forall|j: int| 0 <= j < i implies !divides(
                        #[trigger] self@[j] as int,
                        number as int,
                    ) by {
                        if divides(self@[j] as int, number as int) {
                            lemma_divides_product(self@[j] as int, number as int, p as int);
                            assert(number * p == whole) by (nonlinear_arith)
                                requires
                                    whole == p * number,
                            ;
                        }
                    }
                }
            }
            proof {
                if e > 0 {
                    let grown = earlier.push((p as nat, e));
                    assert forall|a: int, b: int| 0 <= a < b < grown.len() implies (
                    #[trigger] grown[a]).0 < (#[trigger] grown[b]).0 by {
                        if b < earlier.len() {
                            assert(earlier[a].0 < earlier[b].0);
                        } else {
                            assert(earlier[a].0 < p);
                        }
                    }
                    assert forall|a: int| 0 <= a < grown.len() implies is_prime(
                        (#[trigger] grown[a]).0 as int,
                    ) by {
                        if a < earlier.len() {
                            assert(is_prime(earlier[a].0 as int));
                        }
                    }
                }
                assert forall|k: int| 0 <= k < result@.len() implies (#[trigger] result@[k]).0
                    <= self@[i as int] by {
                    if k < earlier.len() {
                        assert(earlier[k].0 < p);
                    }
                }
            }
            i = i + 1;
        }
        proof {
            if number > 1 {
                let q = lemma_prime_divisor(number as int);
                lemma_divisor_at_most(q, number as int);
                if self.max() < num {
                    lemma_table_len(self@);
                    lemma_prime_count_equal(self.max(), usize::MAX as int);
                }
                lemma_table_membership(self@, q);
                let j = choose|j: int| 0 <= j < self@.len() && #[trigger] self@[j] as int == q;
                assert(!divides(self@[j] as int, number as int));
            }
            assert(product(result@) == num) by (nonlinear_arith)
                requires
                    number * product(result@) == num,
                    number == 1,
            ;
        }
        result
    }
}

} // verus!
