use euler::fibs::{sum_even_fibs_under_4_million, Fib};

#[test]
fn even_fibonacci_sum() {
    assert_eq!(sum_even_fibs_under_4_million(), 4613732);
}

#[test]
fn fib_walks_the_sequence() {
    let mut f = Fib::start_from(1, 2);
    let mut seen = Vec::new();
    for _ in 0..6 {
        seen.push(f.next().unwrap());
    }
    assert_eq!(seen, vec![1, 2, 3, 5, 8, 13]);
}

#[test]
fn fib_stops_before_overflow() {
    let mut f = Fib::start_from(u32::MAX - 1, 2);
    assert_eq!(f.next(), None);
}
