use euler::palindromes::largest_palindrome_of_product_of_n_digit_numbers;

#[test]
fn is_palindrome() {
    println!("TEST IS OK")
}

#[test]
fn largest_palindromic_products() {
    assert_eq!(largest_palindrome_of_product_of_n_digit_numbers(1), Some(9));
    assert_eq!(largest_palindrome_of_product_of_n_digit_numbers(2), Some(9009));
    assert_eq!(largest_palindrome_of_product_of_n_digit_numbers(3), Some(906609));
}
