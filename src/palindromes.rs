//! Palindromic numbers among products of numbers with a given number of digits.
use vstd::prelude::*;

use crate::bigint::decimal_digits;
use crate::digits::{decimal_of, pow10};

verus! {

/// The sequence reads the same backwards.
pub open spec fn palindromic<T>(s: Seq<T>) -> bool {
    forall|i: int| 0 <= i < s.len() ==> #[trigger] s[i] == s[s.len() - 1 - i]
}

/// The sequence reads the same backwards.
fn is_palindrome(ts: &[u8]) -> (r: bool)
    ensures
        r == palindromic(ts@),
{
    let n = ts.len();
    let mut i: usize = 0;
    while i < n
        invariant
            n == ts@.len(),
            i <= n,
            forall|j: int| 0 <= j < i ==> #[trigger] ts@[j] == ts@[n - 1 - j],
        decreases n - i,
    {
        if ts[i] != ts[n - 1 - i] {
            return false;
        }
        i += 1;
    }
    true
}

/// The decimal text of the number reads the same backwards.
fn is_palindrome_display(d: u32) -> (r: bool)
    ensures
        r == palindromic(decimal_of(d as nat)),
{
    let digits = decimal_digits(d as u64);
    is_palindrome(digits.as_slice())
}

/// Not decided by this test: it answers no for every number.
fn is_palindrome_integer(n: u32) -> (r: bool)
    ensures
        !r,
{
    false
}

/// `x` has exactly `n` decimal digits.
pub open spec fn has_digits(x: nat, n: nat) -> bool {
    n >= 1 && pow10((n - 1) as nat) <= x < pow10(n)
}

/// `p` is `x * y` for numbers `y <= x` of `n` digits each.
pub open spec fn is_product_of_digits(p: nat, n: nat) -> bool {
    exists|x: nat, y: nat| has_digits(x, n) && has_digits(y, n) && y <= x && p == #[trigger] (x * y)
}

/// `v` is one of the entries of `s`.
pub open spec fn lists(s: Seq<u32>, v: nat) -> bool {
    exists|k: int| 0 <= k < s.len() && s[k] as nat == v
}

proof fn lemma_pow10_small(n: nat)
    requires
        n <= 4,
    ensures
        pow10(n) <= 10000,
        pow10(n) >= 1,
{
    reveal_with_fuel(pow10, 5);
}

/// Every product `x * y` with `y <= x`, both of `n` digits, for `x` then `y`
/// increasing.
fn products_of_n_digit_numbers(n: u32) -> (r: Vec<u32>)
    requires
        1 <= n <= 4,
    ensures
        forall|i: int| 0 <= i < r@.len() ==> is_product_of_digits(#[trigger] r@[i] as nat, n as nat),
        forall|x: nat, y: nat|
            has_digits(x, n as nat) && has_digits(y, n as nat) && y <= x ==> lists(r@, #[trigger] (x * y)),
{
    let mut products: Vec<u32> = Vec::new();
    proof {
        lemma_pow10_small(n as nat);
        lemma_pow10_small((n - 1) as nat);
    }
    let low = pow10_u32(n - 1);
    let high = pow10_u32(n);
    let mut x = low;
    while x < high
        invariant
            low == pow10((n - 1) as nat),
            high == pow10(n as nat),
            high <= 10000,
            low <= x <= high,
            1 <= n <= 4,
            forall|i: int|
                0 <= i < products@.len() ==> is_product_of_digits(
                    #[trigger] products@[i] as nat,
                    n as nat,
                ),
            forall|a: nat, b: nat|
                has_digits(a, n as nat) && has_digits(b, n as nat) && b <= a && a < x
                    ==> lists(products@, #[trigger] (a * b)),
        decreases high - x,
    {
        let mut y = low;
        while y < x + 1
            invariant
                low == pow10((n - 1) as nat),
                high == pow10(n as nat),
                high <= 10000,
                low <= y <= x + 1,
                low <= x < high,
                1 <= n <= 4,
                forall|i: int|
                    0 <= i < products@.len() ==> is_product_of_digits(
                        #[trigger] products@[i] as nat,
                        n as nat,
                    ),
                forall|a: nat, b: nat|
                    has_digits(a, n as nat) && has_digits(b, n as nat) && b <= a && (a < x || (a
                        == x && b < y)) ==> lists(products@, #[trigger] (a * b)),
            decreases x + 1 - y,
        {
            assert(x * y <= 10000 * 10000) by (nonlinear_arith)
                requires
                    x < 10000,
                    y < 10000,
            ;
            let p = x * y;
            let ghost before = products@;
            products.push(p);
            proof {
                let xn = x as nat;
                let yn = y as nat;
                assert(has_digits(xn, n as nat) && has_digits(yn, n as nat));
                assert(p as nat == xn * yn);
                assert(is_product_of_digits(p as nat, n as nat));
                assert forall|a: nat, b: nat|
                    has_digits(a, n as nat) && has_digits(b, n as nat) && b <= a && (a < x || (a
                        == x && b < y + 1)) implies lists(products@, #[trigger] (a * b)) by {
                    if a == x && b == y {
                        assert(products@[before.len() as int] as nat == a * b);
                    } else {
                        assert(lists(before, a * b));
                        let k = choose|k: int| 0 <= k < before.len() && before[k] as nat == a * b;
                        assert(products@[k] as nat == a * b);
                    }
                }
            }
            y += 1;
        }
        x += 1;
    }
    products
}

/// 10 to the power `e`, for `e` up to 4.
fn pow10_u32(e: u32) -> (r: u32)
    requires
        e <= 4,
    ensures
        r == pow10(e as nat),
{
    let mut r: u32 = 1;
    let mut i: u32 = 0;
    while i < e
        invariant
            i <= e <= 4,
            r == pow10(i as nat),
        decreases e - i,
    {
        proof {
            lemma_pow10_small(i as nat);
        }
        r = r * 10;
        i += 1;
    }
    r
}

/// The largest palindromic product of two numbers of `n` digits each;
/// nothing when there is none.
pub fn largest_palindrome_of_product_of_n_digit_numbers(n: u32) -> (r: Option<u32>)
    requires
        1 <= n <= 4,
    ensures
        r matches Some(m) ==> is_product_of_digits(m as nat, n as nat) && palindromic(
            decimal_of(m as nat),
        ),
        r matches Some(m) ==> forall|x: nat, y: nat|
            has_digits(x, n as nat) && has_digits(y, n as nat) && y <= x && palindromic(
                decimal_of(#[trigger] (x * y)),
            ) ==> x * y <= m,
        r is None ==> forall|x: nat, y: nat|
            has_digits(x, n as nat) && has_digits(y, n as nat) && y <= x ==> !palindromic(
                decimal_of(#[trigger] (x * y)),
            ),
{
    let products = products_of_n_digit_numbers(n);
    let mut best: Option<u32> = None;
    let mut i: usize = 0;
    while i < products.len()
        invariant
            i <= products@.len(),
            forall|k: int|
                0 <= k < products@.len() ==> is_product_of_digits(
                    #[trigger] products@[k] as nat,
                    n as nat,
                ),
            best matches Some(m) ==> is_product_of_digits(m as nat, n as nat) && palindromic(
                decimal_of(m as nat),
            ),
            forall|k: int|
                0 <= k < i && palindromic(decimal_of(#[trigger] products@[k] as nat)) ==> (best matches Some(
                    m,
                ) && products@[k] <= m),
        decreases products@.len() - i,
    {
        let p = products[i];
        if is_palindrome_display(p) {
            match best {
                Some(m) => {
                    if p > m {
                        best = Some(p);
                    }
                },
                None => {
                    best = Some(p);
                },
            }
        }
        i += 1;
    }
    proof {
        assert forall|x: nat, y: nat|
            has_digits(x, n as nat) && has_digits(y, n as nat) && y <= x && palindromic(
                decimal_of(#[trigger] (x * y)),
            ) implies (best matches Some(m) && x * y <= m) by {
            lemma_pow10_small(n as nat);
            assert(x * y < 10000 * 10000) by (nonlinear_arith)
                requires
                    x < 10000,
                    y < 10000,
            ;
            assert(lists(products@, x * y));
            let k = choose|k: int| 0 <= k < products@.len() && products@[k] as nat == x * y;
            assert(products@[k] as nat == x * y);
        }
    }
    best
}

} // verus!
