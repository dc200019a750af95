use euler::ints::divisor_count;
use euler::primes::{factorize, factorize_unique, is_prime, CachedPrimes, PrimesIterator};

#[test]
fn cached_primes_are_correct() {
    let mut cached_primes = CachedPrimes::new();
    let cached_1: Vec<u64> = cached_primes.iter(10);
    let cached_2: Vec<u64> = cached_primes.iter(10);
    let mut primes = PrimesIterator::new();
    let mut dynamic: Vec<u64> = Vec::new();
    for _ in 0..10 {
        dynamic.push(primes.next().unwrap());
    }

    assert_eq!(cached_1, dynamic);
    assert_eq!(cached_1, vec![2, 3, 5, 7, 11, 13, 17, 19, 23, 29]);
    assert_eq!(cached_1, cached_2);
}

#[test]
fn trial_division() {
    assert!(is_prime(2));
    assert!(is_prime(97));
    assert!(!is_prime(91));
    assert!(!is_prime(4));
    assert!(is_prime(1));
    assert!(is_prime(0));
}

#[test]
fn factorization() {
    let mut ps = CachedPrimes::with_capacity(16);
    assert_eq!(factorize(28, &mut ps), vec![2, 2, 7]);
    assert_eq!(factorize(97, &mut ps), vec![97]);
    assert_eq!(factorize(1, &mut ps), Vec::<u64>::new());
    assert_eq!(factorize(0, &mut ps), Vec::<u64>::new());
    assert_eq!(factorize(360, &mut ps), vec![2, 2, 2, 3, 3, 5]);
}

#[test]
fn unique_factors_with_counts() {
    let mut ps = CachedPrimes::new();
    let m = factorize_unique(360, &mut ps);
    assert_eq!(m.len(), 3);
    assert_eq!(m.get(&2), Some(&3));
    assert_eq!(m.get(&3), Some(&2));
    assert_eq!(m.get(&5), Some(&1));
    assert!(factorize_unique(1, &mut ps).is_empty());
}

#[test]
fn divisor_count_is_correct() {
    let mut ps = CachedPrimes::new();

    assert_eq!(divisor_count(1, &mut ps), Some(1));
    assert_eq!(divisor_count(3, &mut ps), Some(2));
    assert_eq!(divisor_count(15, &mut ps), Some(4));
    assert_eq!(divisor_count(21, &mut ps), Some(4));
    assert_eq!(divisor_count(28, &mut ps), Some(6));
}
