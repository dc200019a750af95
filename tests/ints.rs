use euler::ints::{
    least_common_multiple, smallest_number_divisible_by_ns_from_1_to_n__fast,
    combination, divisors, factorial, is_divisible_by, is_divisible_by_ns, is_divisible_by_range,
    smallest_number_divisible_by_ns_from_1_to_n, biggest_multiples_of_numbers_in_range_1_to_n,
    PythagoreanTriplets, Triangular,
};

#[test]
fn factorize_is_correct() {
    let one: Vec<u64> = divisors(1).collect();
    let three: Vec<u64> = divisors(3).collect();
    let twenty_eight: Vec<u64> = divisors(28).collect();

    assert_eq!(one, vec![1]);
    assert_eq!(three, vec![3, 1]);
    assert_eq!(twenty_eight, vec![28, 14, 7, 4, 2, 1]);
}

#[test]
fn divisors_of_zero_are_none() {
    assert_eq!(divisors(0).collect(), Vec::<u64>::new());
}

#[test]
fn divisors_step_by_step() {
    let mut d = divisors(12);
    assert_eq!(d.next(), Some(12));
    assert_eq!(d.next(), Some(6));
    assert_eq!(d.next(), Some(4));
    assert_eq!(d.next(), Some(3));
    assert_eq!(d.next(), Some(2));
    assert_eq!(d.next(), Some(1));
    assert_eq!(d.next(), None);
    assert_eq!(d.next(), None);
}

#[test]
fn small_factorials() {
    assert_eq!(factorial(0), 1);
    assert_eq!(factorial(1), 1);
    assert_eq!(factorial(5), 120);
    assert_eq!(factorial(20), 2432902008176640000);
}

#[test]
fn combination_as_written() {
    // (k + 2) * ... * (n - 1) over 2 * ... * (k - 1)
    assert_eq!(combination(6, 2), 4 * 5);
    assert_eq!(combination(7, 3), (5 * 6) / 2);
    assert_eq!(combination(3, 5), 1 / (2 * 3 * 4));
}

#[test]
fn triangular_numbers() {
    let mut t = Triangular::new();
    let mut seen = Vec::new();
    for _ in 0..7 {
        seen.push(t.next().unwrap());
    }
    assert_eq!(seen, vec![1, 3, 6, 10, 15, 21, 28]);
}

#[test]
fn divisibility_checks() {
    assert!(is_divisible_by(12, 4));
    assert!(!is_divisible_by(12, 5));
    assert!(is_divisible_by_range(60, 1..7));
    assert!(!is_divisible_by_range(60, 1..8));
    assert!(is_divisible_by_ns(60, &vec![3, 4, 5]));
    assert!(!is_divisible_by_ns(60, &vec![7]));
}

#[test]
fn biggest_multiples_up_to_ten() {
    assert_eq!(biggest_multiples_of_numbers_in_range_1_to_n(10), vec![6, 7, 8, 9, 10]);
}

#[test]
fn smallest_divisible_by_one_to_ten() {
    assert_eq!(smallest_number_divisible_by_ns_from_1_to_n(10), Some(2520));
    assert_eq!(smallest_number_divisible_by_ns_from_1_to_n(1), Some(1));
}

#[test]
fn pythagorean_triplets_in_order() {
    let mut t = PythagoreanTriplets::new();
    assert_eq!(t.next(), Some((3, 4, 5)));
    assert_eq!(t.next(), Some((6, 8, 10)));
    assert_eq!(t.next(), Some((5, 12, 13)));
    assert_eq!(t.next(), Some((9, 12, 15)));
    assert_eq!(t.next(), Some((8, 15, 17)));
}

#[test]
fn least_common_multiples() {
    let mut ps = euler::primes::CachedPrimes::new();
    assert_eq!(least_common_multiple(vec![4, 6], &mut ps), Some(12));
    assert_eq!(least_common_multiple(vec![8, 12, 9], &mut ps), Some(72));
    assert_eq!(least_common_multiple(vec![], &mut ps), Some(1));
    assert_eq!(least_common_multiple(vec![0, 1], &mut ps), Some(1));
    // 2^40 * 3^30 does not fit in u64
    assert_eq!(least_common_multiple(vec![1 << 40, 205891132094649], &mut ps), None);
    assert_eq!(smallest_number_divisible_by_ns_from_1_to_n__fast(10, &mut ps), Some(2520));
    assert_eq!(smallest_number_divisible_by_ns_from_1_to_n__fast(20, &mut ps), Some(232792560));
}
