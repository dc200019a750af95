//! A plainer arbitrary-precision unsigned decimal integer that can be read,
//! added and written.
use vstd::prelude::*;

use crate::bigint::{
    is_decimal_text, is_sum, lemma_value_push, longest, max_nat, parse_digits, render,
    render_digits, text_digits, total_value, BigInt,
};
use crate::digits::{all_digits, lemma_value_leading_zeros, num_digits, value_of, zeros};

verus! {

/// Arbitrarily-sized unsigned decimal integer, one digit per byte, most
/// significant first; no digits is zero.
pub struct BigDecimal {
    bytes: Vec<u8>,
}

impl View for BigDecimal {
    type V = Seq<u8>;

    closed spec fn view(&self) -> Seq<u8> {
        self.bytes@
    }
}

/// `bytes` preceded by zeros up to `n` entries.
fn zero_padded(bytes: &Vec<u8>, n: usize) -> (r: Vec<u8>)
    requires
        n >= bytes@.len(),
    ensures
        r@ == zeros((n - bytes@.len()) as nat) + bytes@,
{
    let pad = n - bytes.len();
    let mut out: Vec<u8> = Vec::new();
    let mut k: usize = 0;
    while k < pad
        invariant
            k <= pad,
            out@ == zeros(k as nat),
        decreases pad - k,
    {
        out.push(0);
        k += 1;
        assert(out@ =~= zeros(k as nat));
    }
    let mut i: usize = 0;
    while i < bytes.len()
        invariant
            i <= bytes@.len(),
            out@ == zeros(pad as nat) + bytes@.subrange(0, i as int),
        decreases bytes@.len() - i,
    {
        out.push(bytes[i]);
        i += 1;
        assert(out@ =~= zeros(pad as nat) + bytes@.subrange(0, i as int));
    }
    assert(bytes@.subrange(0, bytes@.len() as int) =~= bytes@);
    out
}

proof fn lemma_padded_digits(n: nat, s: Seq<u8>)
    requires
        all_digits(s),
    ensures
        all_digits(zeros(n) + s),
        value_of(zeros(n) + s) == value_of(s),
{
    lemma_value_leading_zeros(n, s);
    let t = zeros(n) + s;
    assert forall|j: int| 0 <= j < t.len() implies #[trigger] t[j] <= 9 by {
        if j >= n {
            assert(t[j] == s[j - n]);
        }
    }
}

impl BigDecimal {
    #[verifier::type_invariant]
    spec fn well_formed(&self) -> bool {
        all_digits(self.bytes@)
    }

    /// The number this value stands for.
    pub open spec fn value(&self) -> nat {
        value_of(self@)
    }

    /// Zero, with no digits.
    pub fn zero() -> (r: BigDecimal)
        ensures
            r@ == Seq::<u8>::empty(),
    {
        BigDecimal { bytes: Vec::new() }
    }

    /// Reads a text of decimal digits, one per character; any other character
    /// makes the text unreadable, and the empty text is zero.
    pub fn parse(ns: &str) -> (r: Option<BigDecimal>)
        ensures
            r.is_some() <==> is_decimal_text(ns@),
            r.is_some() ==> r.unwrap()@ == text_digits(ns@),
    {
        match parse_digits(ns) {
            Some(bytes) => Some(BigDecimal { bytes }),
            None => None,
        }
    }

    /// The sum: both are padded to the longer length, added digit by digit,
    /// and each carry moved one digit up, with a new leading 1 if one is left.
    pub fn add(self, other: BigDecimal) -> (r: BigDecimal)
        ensures
            is_sum(self@, other@, r@),
    {
        proof {
            use_type_invariant(&self);
            use_type_invariant(&other);
        }
        let max_length = if self.bytes.len() >= other.bytes.len() {
            self.bytes.len()
        } else {
            other.bytes.len()
        };
        let lhs = zero_padded(&self.bytes, max_length);
        let rhs = zero_padded(&other.bytes, max_length);
        proof {
            lemma_padded_digits((max_length - self@.len()) as nat, self@);
            lemma_padded_digits((max_length - other@.len()) as nat, other@);
            assert(lhs@.subrange(0, 0) =~= Seq::<u8>::empty());
            assert(rhs@.subrange(0, 0) =~= Seq::<u8>::empty());
        }
        let mut out: Vec<u8> = Vec::new();
        let mut i: usize = 0;
        while i < max_length
            invariant
                i <= max_length,
                out@.len() == i,
                lhs@.len() == max_length,
                rhs@.len() == max_length,
                all_digits(lhs@),
                all_digits(rhs@),
                value_of(out@) == value_of(lhs@.subrange(0, i as int)) + value_of(
                    rhs@.subrange(0, i as int),
                ),
            decreases max_length - i,
        {
            let x = lhs[i] + rhs[i];
            proof {
                lemma_value_push(out@, x);
                assert(lhs@.subrange(0, i + 1) =~= lhs@.subrange(0, i as int).push(lhs@[i as int]));
                assert(rhs@.subrange(0, i + 1) =~= rhs@.subrange(0, i as int).push(rhs@[i as int]));
                lemma_value_push(lhs@.subrange(0, i as int), lhs@[i as int]);
                lemma_value_push(rhs@.subrange(0, i as int), rhs@[i as int]);
            }
            out.push(x);
            i += 1;
        }
        proof {
            assert(lhs@.subrange(0, max_length as int) =~= lhs@);
            assert(rhs@.subrange(0, max_length as int) =~= rhs@);
        }
        let bytes = BigInt::spread_decimals_out(out);
        BigDecimal { bytes }
    }

    /// The decimal text: "0" for no digits, otherwise one character per digit.
    pub fn to_string(&self) -> (r: String)
        ensures
            r@ == render(self@),
    {
        proof {
            use_type_invariant(self);
        }
        render_digits(&self.bytes)
    }

    /// Adds up all the numbers, from zero, in order.
    pub fn sum(items: Vec<BigDecimal>) -> (r: BigDecimal)
        ensures
            all_digits(r@),
            r.value() == total_value(items@.map_values(|x: BigDecimal| x@)),
            r@.len() == max_nat(longest(items@.map_values(|x: BigDecimal| x@)), num_digits(r.value())),
    {
        let ghost all = items@.map_values(|x: BigDecimal| x@);
        let mut acc = BigDecimal::zero();
        proof {
            assert(all.subrange(0, 0) =~= Seq::<Seq<u8>>::empty());
            assert(value_of(Seq::<u8>::empty()) == 0);
            assert(num_digits(0) == 0);
        }
        let n = items.len();
        let mut i: usize = 0;
        while i < n
            invariant
                i <= n == items@.len(),
                all == items@.map_values(|x: BigDecimal| x@),
                all_digits(acc@),
                acc.value() == total_value(all.subrange(0, i as int)),
                acc@.len() == max_nat(longest(all.subrange(0, i as int)), num_digits(acc.value())),
            decreases n - i,
        {
            proof {
                use_type_invariant(&acc);
            }
            let item = items[i].clone();
            proof {
                crate::bigint::lemma_fold_step(all.subrange(0, i as int), all[i as int], acc@, item@);
                assert(all.subrange(0, i + 1) =~= all.subrange(0, i as int).push(all[i as int]));
            }
            acc = acc.add(item);
            i += 1;
        }
        proof {
            assert(all.subrange(0, n as int) =~= all);
        }
        acc
    }
}

impl Clone for BigDecimal {
    fn clone(&self) -> (r: BigDecimal)
        ensures
            r@ == self@,
    {
        proof {
            use_type_invariant(self);
        }
        let r = BigDecimal { bytes: zero_padded(&self.bytes, self.bytes.len()) };
        assert(zeros(0) + self@ =~= self@);
        r
    }
}

} // verus!
