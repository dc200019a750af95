//! Laws that relate the operations of `BigInt` to each other, stated over
//! the digit sequences that the operations give.
use vstd::prelude::*;

use crate::bigint::{
    char_value, difference_digits, digit_char, is_decimal_text, lemma_difference_digits,
    lemma_fixed_digits_of, lemma_product_digits, lemma_quotient_digits, lemma_sum_digits,
    product_digits, quotient_digits, render, sum_digits, text_digits, BigInt,
};
use crate::digits::{all_digits, value_of};
use vstd::std_specs::cmp::{PartialEqSpec, PartialOrdSpec};

verus! {

/// Reading a nonempty text of decimal digits and writing the number back gives
/// the very same text: digits are kept as read, leading zeros included.
pub proof fn lemma_parse_then_render(s: Seq<char>)
    requires
        s.len() > 0,
        is_decimal_text(s),
    ensures
        render(text_digits(s)) == s,
{
    let ds = text_digits(s);
    assert forall|i: int| 0 <= i < s.len() implies #[trigger] render(ds)[i] == s[i] by {
        assert(char_value(s[i]).is_some());
        assert(render(ds)[i] == digit_char(char_value(s[i]).unwrap()));
    }
    assert(render(ds) =~= s);
}

/// Addition is commutative: swapping the operands gives the same digits.
pub proof fn lemma_add_commutative(a: Seq<u8>, b: Seq<u8>)
    ensures
        sum_digits(a, b) == sum_digits(b, a),
{
}

/// Multiplication is commutative: swapping the operands gives the same number.
pub proof fn lemma_mul_commutative(a: Seq<u8>, b: Seq<u8>)
    ensures
        value_of(product_digits(a, b)) == value_of(product_digits(b, a)),
{
    lemma_product_digits(a, b);
    lemma_product_digits(b, a);
    assert(value_of(a) * value_of(b) == value_of(b) * value_of(a)) by (nonlinear_arith);
}

/// Adding zero gives back the same digits.
pub proof fn lemma_add_zero(a: Seq<u8>)
    requires
        all_digits(a),
    ensures
        sum_digits(a, Seq::<u8>::empty()) == a,
{
    assert(value_of(Seq::<u8>::empty()) == 0);
    crate::digits::lemma_value_bound(a);
    crate::digits::lemma_num_digits_pow10(value_of(a), a.len());
    lemma_fixed_digits_of(a);
}

/// Subtracting a number no larger and then adding it back gives the number
/// started from.
pub proof fn lemma_sub_then_add(a: Seq<u8>, b: Seq<u8>)
    requires
        all_digits(a),
        all_digits(b),
        value_of(a) >= value_of(b),
    ensures
        value_of(sum_digits(difference_digits(a, b), b)) == value_of(a),
{
    lemma_difference_digits(a, b);
    lemma_sum_digits(difference_digits(a, b), b);
}

/// The quotient by a nonzero divisor is the floor of the division: the
/// quotient times the divisor does not exceed the dividend, and one divisor
/// more does.
pub proof fn lemma_quotient_bounds(a: Seq<u8>, b: Seq<u8>)
    requires
        all_digits(a),
        all_digits(b),
        value_of(b) > 0,
    ensures
        value_of(product_digits(quotient_digits(a, b), b)) <= value_of(a),
        value_of(a) < value_of(sum_digits(product_digits(quotient_digits(a, b), b), b)),
{
    let q = quotient_digits(a, b);
    let p = product_digits(q, b);
    lemma_quotient_digits(a, b);
    lemma_product_digits(q, b);
    lemma_sum_digits(p, b);
    let x = value_of(a) as int;
    let y = value_of(b) as int;
    vstd::arithmetic::div_mod::lemma_fundamental_div_mod(x, y);
    vstd::arithmetic::div_mod::lemma_mod_pos_bound(x, y);
    assert(y * (x / y) == (x / y) * y) by (nonlinear_arith);
}

/// Exactly one of less, equal and greater holds between two numbers, as their
/// values say.
pub proof fn lemma_order_total(a: &BigInt, b: &BigInt)
    ensures
        a.partial_cmp_spec(b) == Some(core::cmp::Ordering::Less) <==> a.value() < b.value(),
        a.eq_spec(b) <==> a.value() == b.value(),
        a.partial_cmp_spec(b) == Some(core::cmp::Ordering::Greater) <==> a.value() > b.value(),
        (a.partial_cmp_spec(b) == Some(core::cmp::Ordering::Less)) as int + a.eq_spec(b) as int + (
        a.partial_cmp_spec(b) == Some(core::cmp::Ordering::Greater)) as int == 1,
{
}

} // verus!
