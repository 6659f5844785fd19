use prime_cache::factors::{Factor, Factors};
use prime_cache::integers::{
    get_factors_once, is_prime_once, number_of_signed, number_of_unsigned, Prime,
};
use prime_cache::primes::{OutOfRange, Primes, PrimesConf};
use prime_cache::qck_div_chk::{sum_of_digits, QckDiv};
use prime_cache::text::append_decimal;

const SEED: [usize; 46] = [
    2, 3, 5, 7, 11, 13, 17, 19, 23, 29, 31, 37, 41, 43, 47, 53, 59, 61, 67, 71, 73, 79, 83, 89, 97,
    101, 103, 107, 109, 113, 127, 131, 137, 139, 149, 151, 157, 163, 167, 173, 179, 181, 191, 193,
    197, 199,
];

fn naive_is_prime(n: usize) -> bool {
    if n < 2 {
        return false;
    }
    let mut d = 2;
    while d * d <= n {
        if n % d == 0 {
            return false;
        }
        d += 1;
    }
    true
}

fn entries(f: &Factors) -> Vec<(usize, usize)> {
    f.as_slice().iter().map(|e| (e.prime(), e.cant())).collect()
}

#[test]
fn seven_rule_scenarios() {
    assert!(QckDiv::Seven.check_div(91));
    assert!(!QckDiv::Seven.check_div(90));
}

#[test]
fn digit_rules_agree_with_remainders() {
    for n in 0..5000usize {
        assert_eq!(QckDiv::Two.check_div(n), n % 2 == 0, "2 and {}", n);
        assert_eq!(QckDiv::Three.check_div(n), n % 3 == 0, "3 and {}", n);
        assert_eq!(QckDiv::Five.check_div(n), n % 5 == 0, "5 and {}", n);
        assert_eq!(QckDiv::Seven.check_div(n), n % 7 == 0, "7 and {}", n);
    }
}

#[test]
fn digit_rules_on_zero() {
    assert!(QckDiv::Two.check_div(0));
    assert!(QckDiv::Three.check_div(0));
    assert!(QckDiv::Five.check_div(0));
    assert!(QckDiv::Seven.check_div(0));
}

#[test]
fn seven_rule_when_a_step_leaves_nothing() {
    assert!(QckDiv::Seven.check_div(105));
    assert!(QckDiv::Seven.check_div(1001));
    assert!(!QckDiv::Seven.check_div(1002));
}

#[test]
fn digit_rules_on_large_numbers() {
    let big = usize::MAX;
    assert_eq!(QckDiv::Two.check_div(big), big % 2 == 0);
    assert_eq!(QckDiv::Three.check_div(big), big % 3 == 0);
    assert_eq!(QckDiv::Five.check_div(big), big % 5 == 0);
    assert_eq!(QckDiv::Seven.check_div(big), big % 7 == 0);
    let n: usize = 4_000_000_011;
    assert_eq!(QckDiv::Seven.check_div(n), n % 7 == 0);
    assert_eq!(QckDiv::Three.check_div(n), n % 3 == 0);
}

#[test]
fn divisors_and_their_text() {
    assert_eq!(QckDiv::Two.divisor(), 2);
    assert_eq!(QckDiv::Three.divisor(), 3);
    assert_eq!(QckDiv::Five.divisor(), 5);
    assert_eq!(QckDiv::Seven.divisor(), 7);
    assert_eq!(QckDiv::Two.to_string(), "2");
    assert_eq!(QckDiv::Three.to_string(), "3");
    assert_eq!(QckDiv::Five.to_string(), "5");
    assert_eq!(QckDiv::Seven.to_string(), "7");
}

#[test]
fn digit_sums() {
    assert_eq!(sum_of_digits(0), 0);
    assert_eq!(sum_of_digits(9), 9);
    assert_eq!(sum_of_digits(10), 1);
    assert_eq!(sum_of_digits(199), 19);
    assert_eq!(sum_of_digits(987654321), 45);
}

#[test]
fn decimal_text() {
    let mut out = String::from("n=");
    append_decimal(&mut out, 0);
    assert_eq!(out, "n=0");
    let mut out = String::new();
    append_decimal(&mut out, 7);
    append_decimal(&mut out, 10);
    append_decimal(&mut out, 1005);
    assert_eq!(out, "7101005");
    let mut out = String::new();
    append_decimal(&mut out, usize::MAX);
    assert_eq!(out, format!("{}", usize::MAX));
    for n in 0..3000usize {
        let mut out = String::new();
        append_decimal(&mut out, n);
        assert_eq!(out, format!("{}", n));
    }
}

#[test]
fn factor_counts_and_powers() {
    let mut f = Factor::new(5);
    assert_eq!((f.prime(), f.cant()), (5, 1));
    assert_eq!(f.de_factor(), 5);
    f.add_factor();
    f.add_factor();
    assert_eq!((f.prime(), f.cant()), (5, 3));
    assert_eq!(f.de_factor(), 125);
    assert_eq!(f.to_string(), "(5, 3)");
    assert_eq!(Factor::new(0).de_factor(), 0);
    assert_eq!(Factor::new(1).de_factor(), 1);
    assert_eq!(Factor::new(7), Factor::new(7));
}

#[test]
fn factors_start_empty() {
    let f = Factors::new();
    assert!(f.as_slice().is_empty());
    assert_eq!(f.de_factor(), 1);
    assert_eq!(f.to_string(), "[]");
}

#[test]
fn factors_keep_first_seen_order() {
    let mut f = Factors::new();
    f.add_factor(5);
    f.add_factor(2);
    f.add_factor(5);
    f.add_factor(3);
    f.add_factor(2);
    f.add_factor(5);
    assert_eq!(entries(&f), vec![(5, 3), (2, 2), (3, 1)]);
    assert_eq!(f.de_factor(), 125 * 4 * 3);
    assert_eq!(f.to_string(), "[(5, 3), (2, 2), (3, 1)]");
}

#[test]
fn factors_with_a_zero_multiply_out_to_zero() {
    let mut f = Factors::new();
    f.add_factor(usize::MAX);
    f.add_factor(usize::MAX - 1);
    f.add_factor(0);
    assert_eq!(f.de_factor(), 0);
}

#[test]
fn get_factor_finds_the_entry() {
    let mut f = Factors::new();
    f.add_factor(2);
    f.add_factor(3);
    assert!(f.get_factor(5).is_none());
    match f.get_factor(3) {
        Some(e) => {
            assert_eq!((e.prime(), e.cant()), (3, 1));
            e.add_factor();
        }
        None => panic!("3 was added"),
    }
    assert_eq!(entries(&f), vec![(2, 1), (3, 2)]);
}

#[test]
fn new_cache_holds_the_seed() {
    let primes = Primes::new();
    assert_eq!(primes.as_slice(), &SEED[..]);
    assert!(matches!(primes.primes_conf, PrimesConf::Exponential));
    assert_eq!(
        primes.to_string(),
        "[2, 3, 5, 7, 11, 13, 17, 19, 23, 29, 31, 37, 41, 43, 47, 53, 59, 61, 67, 71, 73, 79, 83, \
         89, 97, 101, 103, 107, 109, 113, 127, 131, 137, 139, 149, 151, 157, 163, 167, 173, 179, \
         181, 191, 193, 197, 199]"
    );
}

#[test]
fn seed_entries_are_prime() {
    let mut primes = Primes::new();
    for p in SEED {
        assert!(primes.n_is_prime(p), "{}", p);
    }
    assert_eq!(primes.as_slice(), &SEED[..]);
}

#[test]
fn products_are_not_prime() {
    let mut primes = Primes::new();
    for a in 2..40usize {
        for b in 2..40usize {
            assert!(!primes.n_is_prime(a * b), "{} * {}", a, b);
        }
    }
}

#[test]
fn zero_and_one_are_not_prime() {
    let mut primes = Primes::new();
    assert!(!primes.n_is_prime(0));
    assert!(!primes.n_is_prime(1));
    assert!(primes.n_is_prime(2));
    assert_eq!(primes.as_slice(), &SEED[..]);
}

#[test]
fn primality_agrees_with_trial_by_every_number() {
    let mut primes = Primes::new();
    for n in 0..3000usize {
        assert_eq!(primes.n_is_prime(n), naive_is_prime(n), "{}", n);
    }
}

#[test]
fn growing_appends_the_next_primes() {
    let mut primes = Primes::new();
    assert_eq!(primes.add_n_more_primes(0), Ok(()));
    assert_eq!(primes.as_slice(), &SEED[..]);
    assert_eq!(primes.add_n_more_primes(5), Ok(()));
    assert_eq!(&primes.as_slice()[..46], &SEED[..]);
    assert_eq!(&primes.as_slice()[46..], &[211, 223, 227, 229, 233]);
    assert_eq!(primes.one_more(), Ok(()));
    assert_eq!(primes.as_slice().len(), 52);
    assert_eq!(primes.as_slice()[51], 239);
}

#[test]
fn growing_keeps_what_was_cached() {
    let mut primes = Primes::new();
    for n in [1usize, 3, 7, 20] {
        let before = primes.as_slice().to_vec();
        assert_eq!(primes.add_n_more_primes(n), Ok(()));
        let after = primes.as_slice();
        assert_eq!(after.len(), before.len() + n);
        assert_eq!(&after[..before.len()], &before[..]);
        assert!(after[after.len() - 1] > before[before.len() - 1]);
        assert!(after.windows(2).all(|w| w[0] < w[1]));
        assert!(after.iter().all(|&p| naive_is_prime(p)));
    }
    let last = *primes.as_slice().last().unwrap();
    let count = (0..=last).filter(|&n| naive_is_prime(n)).count();
    assert_eq!(primes.as_slice().len(), count);
}

#[test]
fn growing_until_211_appends_211() {
    let mut primes = Primes::new();
    let rounds = primes.grow_until(211);
    assert_eq!(rounds, 1);
    assert_eq!(&primes.as_slice()[..46], &SEED[..]);
    assert_eq!(&primes.as_slice()[46..], &[211]);
}

#[test]
fn growing_until_a_cached_number_does_nothing() {
    let mut primes = Primes::new();
    assert_eq!(primes.grow_until(199), 0);
    assert_eq!(primes.grow_until(0), 0);
    assert_eq!(primes.grow_until(150), 0);
    assert_eq!(primes.as_slice(), &SEED[..]);
}

#[test]
fn exponential_rounds_double() {
    let mut primes = Primes::new();
    assert_eq!(primes.grow_until(230), 3);
    assert_eq!(&primes.as_slice()[46..], &[211, 223, 227, 229, 233, 239, 241]);
}

#[test]
fn constant_rounds_stay_at_one() {
    let mut primes = Primes::new();
    primes.set_policy(PrimesConf::Constant);
    assert_eq!(primes.grow_until(230), 5);
    assert_eq!(&primes.as_slice()[46..], &[211, 223, 227, 229, 233]);
}

#[test]
fn linear_rounds_grow_by_one() {
    let mut primes = Primes::new();
    primes.set_policy(PrimesConf::Linear);
    assert_eq!(primes.grow_until(230), 3);
    assert_eq!(&primes.as_slice()[46..], &[211, 223, 227, 229, 233, 239]);
}

#[test]
fn exponential_rounds_are_logarithmic() {
    for target in [200usize, 1000, 5000, 20000, 100000] {
        let mut primes = Primes::new();
        let rounds = primes.grow_until(target);
        assert!(rounds > 0);
        assert!(1usize << (rounds - 1) < target);
        let grown = primes.as_slice().len() - 46;
        assert_eq!(grown, (1usize << rounds) - 1);
        assert!(*primes.as_slice().last().unwrap() >= target);
    }
}

#[test]
fn round_sizes() {
    assert_eq!(PrimesConf::Constant.next_round_size(1), 1);
    assert_eq!(PrimesConf::Constant.next_round_size(9), 9);
    assert_eq!(PrimesConf::Linear.next_round_size(1), 2);
    assert_eq!(PrimesConf::Linear.next_round_size(9), 10);
    assert_eq!(PrimesConf::Exponential.next_round_size(1), 2);
    assert_eq!(PrimesConf::Exponential.next_round_size(8), 16);
}

#[test]
fn policy_can_be_changed() {
    let mut primes = Primes::new();
    primes.set_policy(PrimesConf::Linear);
    assert!(matches!(primes.primes_conf, PrimesConf::Linear));
    assert_eq!(primes.as_slice(), &SEED[..]);
}

#[test]
fn factorization_of_zero_and_one_is_empty() {
    let mut primes = Primes::new();
    assert!(primes.factorice_number(0).as_slice().is_empty());
    assert!(primes.factorice_number(1).as_slice().is_empty());
    assert_eq!(primes.factorice_number(0).to_string(), "[]");
    assert_eq!(primes.as_slice(), &SEED[..]);
}

#[test]
fn factorization_of_a_prime_is_itself() {
    let mut primes = Primes::new();
    assert_eq!(entries(&primes.factorice_number(2)), vec![(2, 1)]);
    assert_eq!(entries(&primes.factorice_number(127)), vec![(127, 1)]);
    assert_eq!(entries(&primes.factorice_number(211)), vec![(211, 1)]);
}

#[test]
fn factorization_examples() {
    let mut primes = Primes::new();
    assert_eq!(entries(&primes.factorice_number(100)), vec![(2, 2), (5, 2)]);
    assert_eq!(entries(&primes.factorice_number(360)), vec![(2, 3), (3, 2), (5, 1)]);
    assert_eq!(entries(&primes.factorice_number(1024)), vec![(2, 10)]);
    assert_eq!(entries(&primes.factorice_number(211 * 223)), vec![(211, 1), (223, 1)]);
    assert_eq!(
        entries(&primes.factorice_number(6548178)),
        vec![(2, 1), (3, 1), (7, 1), (13, 1), (67, 1), (179, 1)]
    );
}

#[test]
fn factorization_round_trip() {
    let mut primes = Primes::new();
    for n in 2..3000usize {
        let f = primes.factorice_number(n);
        assert_eq!(f.de_factor(), n, "{}", n);
    }
}

#[test]
fn factorization_entries_are_distinct_primes_with_positive_exponents() {
    let mut primes = Primes::new();
    for n in 2..3000usize {
        let f = primes.factorice_number(n);
        let e = entries(&f);
        assert!(!e.is_empty());
        assert!(e.windows(2).all(|w| w[0].0 < w[1].0), "{}", n);
        assert!(e.iter().all(|&(p, c)| naive_is_prime(p) && c >= 1), "{}", n);
    }
}

#[test]
fn numbers_that_stand_for_integers() {
    assert_eq!(number_of_unsigned(0), 0);
    assert_eq!(number_of_unsigned(7), 7);
    assert_eq!(number_of_unsigned(usize::MAX as u128), usize::MAX);
    assert_eq!(number_of_unsigned(usize::MAX as u128 + 1), 0);
    assert_eq!(number_of_unsigned(u128::MAX), 0);
    assert_eq!(number_of_signed(7), 7);
    assert_eq!(number_of_signed(0), 0);
    assert_eq!(number_of_signed(-1), 0);
    assert_eq!(number_of_signed(-7), 0);
    assert_eq!(number_of_signed(i128::MIN), 0);
    assert_eq!(number_of_signed(usize::MAX as i128), usize::MAX);
    assert_eq!(number_of_signed(usize::MAX as i128 + 1), 0);
}

#[test]
fn one_call_forms() {
    assert!(is_prime_once(211));
    assert!(!is_prime_once(221));
    assert!(!is_prime_once(0));
    assert_eq!(get_factors_once(221).to_string(), "[(13, 1), (17, 1)]");
    assert_eq!(get_factors_once(1).to_string(), "[]");
}

#[test]
fn every_integer_type_has_the_methods() {
    assert!(7u8.is_prime());
    assert!(7u16.is_prime());
    assert!(7u32.is_prime());
    assert!(7u64.is_prime());
    assert!(7u128.is_prime());
    assert!(7usize.is_prime());
    assert!(7i8.is_prime());
    assert!(7i16.is_prime());
    assert!(7i32.is_prime());
    assert!(7i64.is_prime());
    assert!(7i128.is_prime());
    assert!(7isize.is_prime());
    assert_eq!(12u8.get_factors().to_string(), "[(2, 2), (3, 1)]");
    assert_eq!(12i64.get_factors().to_string(), "[(2, 2), (3, 1)]");
    assert_eq!(12u128.get_factors().to_string(), "[(2, 2), (3, 1)]");
}

#[test]
fn negative_and_oversized_integers_count_as_zero() {
    assert!(!(-7i32).is_prime());
    assert!(!(-2i8).is_prime());
    assert!(!i128::MIN.is_prime());
    assert!(!u128::MAX.is_prime());
    assert_eq!((-12i32).get_factors().to_string(), "[]");
    assert_eq!(u128::MAX.get_factors().to_string(), "[]");
    let mut primes = Primes::new();
    assert!(!(-211i64).is_prime_(&mut primes));
    assert_eq!((-211i64).get_factors_(&mut primes).to_string(), "[]");
    assert_eq!(primes.as_slice(), &SEED[..]);
}

#[test]
fn a_shared_cache_keeps_what_it_learned() {
    let mut primes = Primes::new();
    assert!(223u32.is_prime_(&mut primes));
    let len = primes.as_slice().len();
    assert!(len > 46);
    assert!(211u64.is_prime_(&mut primes));
    assert_eq!(210i32.get_factors_(&mut primes).to_string(), "[(2, 1), (3, 1), (5, 1), (7, 1)]");
    assert_eq!(primes.as_slice().len(), len);
}

#[test]
fn out_of_range_is_an_error_value() {
    let e: Result<(), OutOfRange> = Err(OutOfRange);
    assert_eq!(e, Err(OutOfRange));
    assert_ne!(e, Ok(()));
}
