//! Tables of primes: increasing sequences that list every prime up to their
//! last entry.
use crate::number_theory::{
    divides, is_prime, lemma_prime_by_trial_division, lemma_prime_count_across_gap,
    lemma_smaller_square, lemma_two_is_prime, no_prime_between, prime_count,
};
use vstd::prelude::*;

verus! {

/// Every entry is smaller than the entries after it.
pub open spec fn increasing(s: Seq<usize>) -> bool {
    forall|i: int, j: int| 0 <= i < j < s.len() ==> s[i] < s[j]
}

/// Every entry is prime.
pub open spec fn all_prime(s: Seq<usize>) -> bool {
    forall|i: int| 0 <= i < s.len() ==> is_prime(#[trigger] s[i] as int)
}

/// `p` is an entry of `s`.
pub open spec fn lists(s: Seq<usize>, p: int) -> bool {
    exists|i: int| 0 <= i < s.len() && #[trigger] s[i] as int == p
}

/// No prime up to the last entry is left out.
pub open spec fn gap_free(s: Seq<usize>) -> bool {
    forall|p: int| #[trigger] is_prime(p) && p <= s.last() ==> lists(s, p)
}

/// `s` holds exactly the primes up to its last entry, in increasing order.
pub open spec fn is_prime_table(s: Seq<usize>) -> bool {
    &&& s.len() > 0
    &&& increasing(s)
    &&& all_prime(s)
    &&& gap_free(s)
}

/// The primes up to 199, with which every cache starts.
#[verifier::opaque]
pub open spec fn seed() -> Seq<usize> {
    seq![
        2, 3, 5, 7, 11, 13, 17, 19, 23, 29, 31, 37, 41, 43, 47, 53, 59, 61, 67, 71, 73, 79, 83, 89,
        97, 101, 103, 107, 109, 113, 127, 131, 137, 139, 149, 151, 157, 163, 167, 173, 179, 181,
        191, 193, 197, 199,
    ]
}

/// In a table of primes, a number up to the last entry is prime exactly when
/// the table lists it; beyond the last entry the table lists nothing.
pub proof fn lemma_table_membership(s: Seq<usize>, n: int)
    requires
        is_prime_table(s),
    ensures
        n <= s.last() ==> (lists(s, n) <==> is_prime(n)),
        n > s.last() ==> !lists(s, n),
{
    if lists(s, n) {
        let i = choose|i: int| 0 <= i < s.len() && #[trigger] s[i] as int == n;
        assert(is_prime(s[i] as int));
        if i < s.len() - 1 {
            assert(s[i] < s[s.len() - 1]);
        }
    }
}

/// The entry at index `i` of a table of primes is at least `i + 2`.
pub proof fn lemma_table_entry_lower_bound(s: Seq<usize>, i: int)
    requires
        is_prime_table(s),
        0 <= i < s.len(),
    ensures
        s[i] >= i + 2,
    decreases i,
{
    if i == 0 {
        assert(is_prime(s[0] as int));
    } else {
        lemma_table_entry_lower_bound(s, i - 1);
        assert(s[i - 1] < s[i]);
    }
}

/// A table of primes begins with 2.
pub proof fn lemma_table_starts_with_two(s: Seq<usize>)
    requires
        is_prime_table(s),
    ensures
        s[0] == 2,
{
    lemma_two_is_prime();
    assert(is_prime(s[0] as int));
    if s.len() > 1 {
        assert(s[0] < s[s.len() - 1]);
    }
    assert(lists(s, 2));
    let i = choose|i: int| 0 <= i < s.len() && #[trigger] s[i] as int == 2;
    if i > 0 {
        assert(s[0] < s[i]);
    }
}

/// Each non-empty front part of a table of primes is a table of primes.
pub proof fn lemma_table_front(s: Seq<usize>, k: int)
    requires
        is_prime_table(s),
        0 < k <= s.len(),
    ensures
        is_prime_table(s.take(k)),
{
    let t = s.take(k);
    assert forall|p: int| #[trigger] is_prime(p) && p <= t.last() implies lists(t, p) by {
        if k < s.len() {
            assert(s[k - 1] < s[s.len() - 1]);
        }
        assert(lists(s, p));
        let i = choose|i: int| 0 <= i < s.len() && #[trigger] s[i] as int == p;
        if i >= k {
            assert(s[k - 1] < s[i]);
        }
        assert(t[i] as int == p);
    }
}

/// No prime lies strictly between two neighbours in a table of primes.
pub proof fn lemma_table_neighbours(s: Seq<usize>, i: int)
    requires
        is_prime_table(s),
        0 <= i < s.len() - 1,
    ensures
        no_prime_between(s[i] as int, s[i + 1] as int),
{
    assert forall|k: int| s[i] < k < s[i + 1] implies !#[trigger] is_prime(k) by {
        if is_prime(k) {
            if i + 1 < s.len() - 1 {
                assert(s[i + 1] < s[s.len() - 1]);
            }
            assert(lists(s, k));
            let j = choose|j: int| 0 <= j < s.len() && #[trigger] s[j] as int == k;
            if j <= i {
                if j < i {
                    assert(s[j] < s[i]);
                }
            } else if j > i + 1 {
                assert(s[i + 1] < s[j]);
            }
        }
    }
}

/// A table of primes has as many entries as there are primes up to its last
/// entry.
pub proof fn lemma_table_len(s: Seq<usize>)
    requires
        is_prime_table(s),
    ensures
        s.len() == prime_count(s.last() as int),
    decreases s.len(),
{
    lemma_table_starts_with_two(s);
    if s.len() == 1 {
        lemma_two_is_prime();
        assert(prime_count(1) == 0);
        assert(prime_count(2) == 1);
    } else {
        let k = s.len() - 1;
        let t = s.take(k);
        lemma_table_front(s, k);
        lemma_table_len(t);
        lemma_table_neighbours(s, k - 1);
        lemma_prime_count_across_gap(s[k - 1] as int, s[k] as int);
        assert(is_prime(s[k] as int));
    }
}

/// A table of primes stays one when the next prime after its last entry is
/// appended.
pub proof fn lemma_table_push(s: Seq<usize>, p: usize)
    requires
        is_prime_table(s),
        is_prime(p as int),
        p > s.last(),
        no_prime_between(s.last() as int, p as int),
    ensures
        is_prime_table(s.push(p)),
{
    let t = s.push(p);
    assert forall|i: int, j: int| 0 <= i < j < t.len() implies t[i] < t[j] by {
        if j == s.len() {
            if i < s.len() - 1 {
                assert(s[i] < s[s.len() - 1]);
            }
        } else {
            assert(s[i] < s[j]);
        }
    }
    assert forall|i: int| 0 <= i < t.len() implies is_prime(#[trigger] t[i] as int) by {
        if i < s.len() {
            assert(is_prime(s[i] as int));
        }
    }
    assert forall|q: int| #[trigger] is_prime(q) && q <= t.last() implies lists(t, q) by {
        if q == p {
            assert(t[s.len() as int] as int == q);
        } else {
            assert(q <= s.last());
            assert(lists(s, q));
            let i = choose|i: int| 0 <= i < s.len() && #[trigger] s[i] as int == q;
            assert(t[i] as int == q);
        }
    }
}

/// A number beyond the last entry of a table of primes is prime when no entry
/// with square at most the number divides it and some entry has a larger
/// square.
pub proof fn lemma_table_trial_division(s: Seq<usize>, n: int, i: int)
    requires
        is_prime_table(s),
        0 <= i < s.len(),
        n >= 2,
        forall|j: int| 0 <= j <= i ==> !divides(#[trigger] s[j] as int, n),
        s[i] * s[i] > n,
    ensures
        is_prime(n),
{
    assert forall|p: int| is_prime(p) && p * p <= n implies !#[trigger] divides(p, n) by {
        lemma_smaller_square(p, s[i] as int);
        if i < s.len() - 1 {
            assert(s[i] < s[s.len() - 1]);
        }
        assert(lists(s, p));
        let j = choose|j: int| 0 <= j < s.len() && #[trigger] s[j] as int == p;
        if j > i {
            assert(s[i] < s[j]);
        }
        assert(!divides(s[j] as int, n));
    }
    lemma_prime_by_trial_division(n);
}

/// The primes below 17 are 2, 3, 5, 7, 11 and 13.
proof fn lemma_primes_below_17(p: int)
    requires
        is_prime(p),
        p < 17,
    ensures
        p == 2 || p == 3 || p == 5 || p == 7 || p == 11 || p == 13,
{
    if p % 2 == 0 && p != 2 {
        assert(divides(2, p));
    }
    if p % 3 == 0 && p != 3 {
        assert(divides(3, p));
    }
}

/// A number below 289 is prime when, apart from itself, none of 2, 3, 5, 7,
/// 11 and 13 divides it.
proof fn lemma_prime_below_289(n: int)
    requires
        2 <= n < 289,
        n == 2 || n % 2 != 0,
        n == 3 || n % 3 != 0,
        n == 5 || n % 5 != 0,
        n == 7 || n % 7 != 0,
        n == 11 || n % 11 != 0,
        n == 13 || n % 13 != 0,
    ensures
        is_prime(n),
{
    assert forall|p: int| is_prime(p) && p * p <= n implies !#[trigger] divides(p, n) by {
        assert(p < 17 && p < n) by (nonlinear_arith)
            requires
                p * p <= n,
                n < 289,
                p >= 2,
        ;
        lemma_primes_below_17(p);
    }
    lemma_prime_by_trial_division(n);
}

/// `n` is one of the 46 primes up to 199.
spec fn is_seed_value(n: int) -> bool {
    ||| n == 2 || n == 3 || n == 5 || n == 7 || n == 11 || n == 13 || n == 17 || n == 19
    ||| n == 23 || n == 29 || n == 31 || n == 37 || n == 41 || n == 43 || n == 47 || n == 53
    ||| n == 59 || n == 61 || n == 67 || n == 71 || n == 73 || n == 79 || n == 83 || n == 89
    ||| n == 97 || n == 101 || n == 103 || n == 107 || n == 109 || n == 113 || n == 127
    ||| n == 131 || n == 137 || n == 139 || n == 149 || n == 151 || n == 157 || n == 163
    ||| n == 167 || n == 173 || n == 179 || n == 181 || n == 191 || n == 193 || n == 197
    ||| n == 199
}

/// A number from 2 to 199 that none of 2, 3, 5, 7, 11 and 13 divides, apart
/// from itself, is one of the 46 primes up to 199.
proof fn lemma_sieve_to_199(n: int)
    requires
        2 <= n <= 199,
        n == 2 || n % 2 != 0,
        n == 3 || n % 3 != 0,
        n == 5 || n % 5 != 0,
        n == 7 || n % 7 != 0,
        n == 11 || n % 11 != 0,
        n == 13 || n % 13 != 0,
    ensures
        is_seed_value(n),
{
    let b = n as u8;
    assert(2 <= b <= 199 && (b == 2 || b % 2 != 0) && (b == 3 || b % 3 != 0) && (b == 5 || b % 5
        != 0) && (b == 7 || b % 7 != 0) && (b == 11 || b % 11 != 0) && (b == 13 || b % 13 != 0)
        ==> b == 2 || b == 3 || b == 5 || b == 7 || b == 11 || b == 13 || b == 17 || b == 19 || b
        == 23 || b == 29 || b == 31 || b == 37 || b == 41 || b == 43 || b == 47 || b == 53 || b
        == 59 || b == 61 || b == 67 || b == 71 || b == 73 || b == 79 || b == 83 || b == 89 || b
        == 97 || b == 101 || b == 103 || b == 107 || b == 109 || b == 113 || b == 127 || b == 131
        || b == 137 || b == 139 || b == 149 || b == 151 || b == 157 || b == 163 || b == 167 || b
        == 173 || b == 179 || b == 181 || b == 191 || b == 193 || b == 197 || b == 199)
        by (bit_vector);
}

/// Each of the 46 primes up to 199 is an entry of the seed.
proof fn lemma_seed_lists_values(n: int)
    requires
        is_seed_value(n),
    ensures
        lists(seed(), n),
{
    reveal(seed);
    let s = seed();
    let i = choose|i: int| 0 <= i < 46 && s[i] as int == n;
    assert(0 <= i < s.len() && s[i] as int == n);
}

/// A prime up to 199 is an entry of the seed.
proof fn lemma_seed_gap_free(p: int)
    requires
        is_prime(p),
        p <= 199,
    ensures
        lists(seed(), p),
{
    if p != 2 {
        assert(!divides(2, p));
    }
    if p != 3 {
        assert(!divides(3, p));
    }
    if p != 5 {
        assert(!divides(5, p));
    }
    if p != 7 {
        assert(!divides(7, p));
    }
    if p != 11 {
        assert(!divides(11, p));
    }
    if p != 13 {
        assert(!divides(13, p));
    }
    lemma_sieve_to_199(p);
    lemma_seed_lists_values(p);
}

/// The seed is a table of primes: it holds exactly the primes up to 199.
pub proof fn lemma_seed_is_prime_table()
    ensures
        is_prime_table(seed()),
        seed().len() == 46,
        seed().last() == 199,
{
    reveal(seed);
    let s = seed();
    assert(s.len() == 46);
    assert forall|i: int| 0 <= i < s.len() implies is_prime(#[trigger] s[i] as int) by {
        lemma_prime_below_289(s[i] as int);
    }
    assert forall|p: int| #[trigger] is_prime(p) && p <= s.last() implies lists(s, p) by {
        lemma_seed_gap_free(p);
    }
    assert(increasing(s));
}

/// Every entry of the seed is prime.
pub proof fn lemma_seed_entry_is_prime(i: int)
    requires
        0 <= i < seed().len(),
    ensures
        is_prime(seed()[i] as int),
{
    lemma_seed_is_prime_table();
}

/// An increasing sequence that begins with the seed ends at 199 or beyond.
pub proof fn lemma_seed_prefix_max(s: Seq<usize>)
    requires
        increasing(s),
        seed().is_prefix_of(s),
    ensures
        s.len() >= 46,
        s.last() >= 199,
{
    lemma_seed_is_prime_table();
    assert(s[45] == seed()[45]);
    if s.len() > 46 {
        assert(s[45] < s[s.len() - 1]);
    }
}

/// Two tables of primes hold the same prime at every index that both have.
pub proof fn lemma_tables_agree(s: Seq<usize>, t: Seq<usize>, i: int)
    requires
        is_prime_table(s),
        is_prime_table(t),
        0 <= i < s.len(),
        i < t.len(),
    ensures
        s[i] == t[i],
    decreases i,
{
    if i == 0 {
        lemma_table_starts_with_two(s);
        lemma_table_starts_with_two(t);
    } else {
        lemma_tables_agree(s, t, i - 1);
        lemma_table_neighbours(s, i - 1);
        lemma_table_neighbours(t, i - 1);
        assert(is_prime(s[i] as int));
        assert(is_prime(t[i] as int));
        assert(s[i - 1] < s[i]);
        assert(t[i - 1] < t[i]);
    }
}

/// A table of primes is determined by its length: two tables of one length
/// are equal.
pub proof fn lemma_table_determined_by_length(s: Seq<usize>, t: Seq<usize>)
    requires
        is_prime_table(s),
        is_prime_table(t),
        s.len() == t.len(),
    ensures
        s == t,
{
    assert forall|i: int| 0 <= i < s.len() implies s[i] == t[i] by {
        lemma_tables_agree(s, t, i);
    }
    assert(s =~= t);
}

} // verus!
