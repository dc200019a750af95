use euler::numbers::number_letter_count;

#[test]
fn example_counts() {
    assert_eq!(number_letter_count(342), 23);
    assert_eq!(number_letter_count(115), 20);
}

#[test]
fn letter_counts_at_the_edges() {
    assert_eq!(number_letter_count(0), 4);
    assert_eq!(number_letter_count(5), 4);
    assert_eq!(number_letter_count(19), 8);
    assert_eq!(number_letter_count(20), 6);
    assert_eq!(number_letter_count(99), 10);
    assert_eq!(number_letter_count(100), 10);
    assert_eq!(number_letter_count(1000), 11);
}

#[test]
fn letters_of_one_to_one_thousand() {
    let mut total = 0;
    for n in 1..=1000 {
        total += number_letter_count(n);
    }
    assert_eq!(total, 21124);
}
