use euler::subseq::largest_product_in_series;

#[test]
fn largest_product_of_adjacent_entries() {
    assert_eq!(largest_product_in_series(vec![1, 2, 3, 4, 0, 5, 1], 2), Some(12));
    assert_eq!(largest_product_in_series(vec![1, 2, 3, 4, 0, 5, 1], 3), Some(24));
    assert_eq!(largest_product_in_series(vec![], 3), None);
    assert_eq!(largest_product_in_series(vec![7], 4), Some(7));
    assert_eq!(largest_product_in_series(vec![9, 9], 0), Some(1));
}

#[test]
fn rests_of_a_sequence() {
    let mut it = euler::subseq::sub_iters(vec![1, 2, 3]);
    assert_eq!(it.next(), Some(vec![1, 2, 3]));
    assert_eq!(it.next(), Some(vec![2, 3]));
    assert_eq!(it.next(), Some(vec![3]));
    assert_eq!(it.next(), None);
    assert_eq!(it.next(), None);
}
