use euler::iterativeseq;
use euler::sequences;

#[test]
fn collatz_u64_length() {
    let s = iterativeseq::collatz(13);
    assert_eq!(s.first, 13);
    // 40 20 10 5 16 8 4 2 then 1
    assert_eq!(s.length(1), Some(8));
    assert_eq!(iterativeseq::collatz(1).length(1), Some(2));
}

#[test]
fn collatz_u64_walk() {
    let s = iterativeseq::collatz(6);
    let mut it = s.iter();
    assert_eq!(it.next(), Some(3));
    assert_eq!(it.next(), Some(10));
    assert_eq!(it.next(), Some(5));
}

#[test]
fn collatz_u64_overflow_is_reported() {
    let s = iterativeseq::collatz(u64::MAX);
    assert_eq!(s.iter().next(), None);
}

#[test]
fn collatz_i64_terms() {
    let s = sequences::collatz(13);
    assert_eq!(s.nth(0), Some(13));
    assert_eq!(s.nth(1), Some(40));
    assert_eq!(s.nth(9), Some(1));
    assert_eq!(s.length(1), Some(9));
}

#[test]
fn collatz_i64_walk() {
    let s = sequences::collatz(-3);
    let mut it = s.iter();
    assert_eq!(it.next(), Some(-3));
    assert_eq!(it.next(), Some(-8));
    assert_eq!(it.next(), Some(-4));
    assert_eq!(it.next(), Some(-2));
}
