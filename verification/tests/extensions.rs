use prime_cache::integers::Prime;
use prime_cache::primes::{Primes, PrimesConf};

#[test]
fn it_works() {
    let result = 2 + 2;
    assert_eq!(result, 4);
}

#[test]
fn test_extensions_a() {
    let a: u32 = 11;
    assert!(a.is_prime());

    assert!(!15.is_prime());
}

#[test]
fn test_extensions_b() {
    let mut primes: Primes = Primes::new();

    let a: u32 = 127;
    assert!(a.is_prime_(&mut primes));

    assert!(!15.is_prime_(&mut primes));
}

#[test]
fn test_factorisation_a() {
    let a: u32 = 127;
    let fact_a = a.get_factors();
    assert_eq!(format!("{}", fact_a.to_string()), "[(127, 1)]");

    let b: u32 = 100;
    let fact_b = b.get_factors();
    assert_eq!(format!("{}", fact_b.to_string()), "[(2, 2), (5, 2)]");
}

#[test]
fn test_factorisation_b() {
    let mut primes: Primes = Primes::new();

    let a: u32 = 127;
    let fact_a = a.get_factors_(&mut primes);
    assert_eq!(format!("{}", fact_a.to_string()), "[(127, 1)]");

    let b: u32 = 100;
    let fact_b = b.get_factors_(&mut primes);
    assert_eq!(format!("{}", fact_b.to_string()), "[(2, 2), (5, 2)]");
}

#[test]
fn test_primes_iter() {
    let mut primes: Primes = Primes::new();
    primes.primes_conf = PrimesConf::Constant;

    let x = 32165489;
    println!("{} is prime? {}", x, x.is_prime_(&mut primes));

    let y = 6548178;
    println!("{} is prime? {}", y, y.is_prime_(&mut primes));
    println!("{} Factors => {}", y, y.get_factors_(&mut primes).to_string());
    assert!(true);
}
