//! Arbitrary-precision unsigned decimal integers, one digit per byte.
use vstd::prelude::*;

use crate::digits::{
    all_digits, decimal_of, lemma_decimal_of, lemma_digits_unique, lemma_num_digits_pow10,
    lemma_num_digits_prefixed, lemma_pow10_positive, lemma_value_append, lemma_value_bound,
    lemma_value_leading_zeros, num_digits, pow10, value_of, zeros,
};

verus! {

/// Why an arithmetic operation produced no value.
#[derive(Clone, Copy, Debug, PartialEq, Eq, Structural)]
pub enum BigIntError {
    /// The subtrahend exceeds the minuend.
    NegativeResult,
    /// The divisor is zero.
    DivisionByZero,
}

/// Arbitrarily-sized unsigned decimal integer: a sequence of decimal digits,
/// most significant first, one digit per byte. The empty sequence is zero;
/// leading zero digits are allowed and do not change the value.
pub struct BigInt {
    digits: Vec<u8>,
}

impl View for BigInt {
    type V = Seq<u8>;

    closed spec fn view(&self) -> Seq<u8> {
        self.digits@
    }
}

/// The decimal digit a character stands for, if it is one of '0' to '9'.
pub open spec fn char_value(c: char) -> Option<u8> {
    if c == '0' {
        Some(0u8)
    } else if c == '1' {
        Some(1u8)
    } else if c == '2' {
        Some(2u8)
    } else if c == '3' {
        Some(3u8)
    } else if c == '4' {
        Some(4u8)
    } else if c == '5' {
        Some(5u8)
    } else if c == '6' {
        Some(6u8)
    } else if c == '7' {
        Some(7u8)
    } else if c == '8' {
        Some(8u8)
    } else if c == '9' {
        Some(9u8)
    } else {
        None
    }
}

/// The character that writes a decimal digit.
pub open spec fn digit_char(d: u8) -> char {
    if d == 0 {
        '0'
    } else if d == 1 {
        '1'
    } else if d == 2 {
        '2'
    } else if d == 3 {
        '3'
    } else if d == 4 {
        '4'
    } else if d == 5 {
        '5'
    } else if d == 6 {
        '6'
    } else if d == 7 {
        '7'
    } else if d == 8 {
        '8'
    } else {
        '9'
    }
}

/// Every character of the text is a decimal digit.
pub open spec fn is_decimal_text(s: Seq<char>) -> bool {
    forall|i: int| 0 <= i < s.len() ==> (#[trigger] char_value(s[i])).is_some()
}

/// The digits written by a decimal text, in the same order.
pub open spec fn text_digits(s: Seq<char>) -> Seq<u8> {
    s.map_values(|c: char| char_value(c).unwrap())
}

/// The text of a digit sequence: "0" when it is empty, one character per digit otherwise.
pub open spec fn render(ds: Seq<u8>) -> Seq<char> {
    if ds.len() == 0 {
        seq!['0']
    } else {
        ds.map_values(|d: u8| digit_char(d))
    }
}

/// The larger of two lengths.
pub open spec fn max_nat(a: nat, b: nat) -> nat {
    if a >= b {
        a
    } else {
        b
    }
}

/// The least length of a product of numbers written with `la` and `lb` digits.
pub open spec fn product_len(la: nat, lb: nat) -> nat {
    if lb == 0 {
        0
    } else {
        (la + lb - 1) as nat
    }
}

/// The `len` last decimal digits of `v`, most significant first.
pub open spec fn fixed_digits(v: nat, len: nat) -> Seq<u8>
    decreases len,
{
    if len == 0 {
        Seq::empty()
    } else {
        fixed_digits(v / 10, (len - 1) as nat).push((v % 10) as u8)
    }
}

/// What `add` gives: the sum, with the longer operand's length, or as many
/// more digits as the sum needs.
pub open spec fn sum_digits(a: Seq<u8>, b: Seq<u8>) -> Seq<u8> {
    let v = value_of(a) + value_of(b);
    fixed_digits(v, max_nat(max_nat(a.len(), b.len()), num_digits(v)))
}

/// What `sub` gives when `a` is at least `b`: the difference, with the
/// longer operand's length.
pub open spec fn difference_digits(a: Seq<u8>, b: Seq<u8>) -> Seq<u8> {
    fixed_digits((value_of(a) - value_of(b)) as nat, max_nat(a.len(), b.len()))
}

/// What `mul` gives: the product, with `a.len() + b.len() - 1` digits, or as
/// many more as the product needs.
pub open spec fn product_digits(a: Seq<u8>, b: Seq<u8>) -> Seq<u8> {
    let v = value_of(a) * value_of(b);
    fixed_digits(v, max_nat(product_len(a.len(), b.len()), num_digits(v)))
}

/// What `div` gives for a nonzero divisor: the floor quotient without
/// leading zeros.
pub open spec fn quotient_digits(a: Seq<u8>, b: Seq<u8>) -> Seq<u8> {
    let v = value_of(a) / value_of(b);
    fixed_digits(v, num_digits(v))
}

/// The last digits of a value that fits in them are its digits.
pub proof fn lemma_fixed_digits(v: nat, len: nat)
    requires
        v < pow10(len),
    ensures
        all_digits(fixed_digits(v, len)),
        value_of(fixed_digits(v, len)) == v,
        fixed_digits(v, len).len() == len,
    decreases len,
{
    let s = fixed_digits(v, len);
    if len == 0 {
        assert(value_of(s) == 0);
    } else {
        let l1 = (len - 1) as nat;
        assert(pow10(len) == 10 * pow10(l1));
        assert(v / 10 < pow10(l1)) by (nonlinear_arith)
            requires
                v < 10 * pow10(l1),
        ;
        lemma_fixed_digits(v / 10, l1);
        let t = fixed_digits(v / 10, l1);
        assert(s.drop_last() =~= t);
        assert(all_digits(s)) by {
            assert forall|i: int| 0 <= i < s.len() implies #[trigger] s[i] <= 9 by {
                if i < t.len() {
                    assert(s[i] == t[i]);
                }
            }
        }
    }
}

/// A digit sequence is the last digits of its own value.
pub proof fn lemma_fixed_digits_of(s: Seq<u8>)
    requires
        all_digits(s),
    ensures
        s == fixed_digits(value_of(s), s.len()),
{
    lemma_value_bound(s);
    lemma_fixed_digits(value_of(s), s.len());
    lemma_digits_unique(s, fixed_digits(value_of(s), s.len()));
}

/// A sum written with enough digits for it is `sum_digits`.
pub proof fn lemma_sum_digits(a: Seq<u8>, b: Seq<u8>)
    ensures
        is_sum(a, b, sum_digits(a, b)),
{
    let v = value_of(a) + value_of(b);
    let len = max_nat(max_nat(a.len(), b.len()), num_digits(v));
    lemma_num_digits_pow10(v, len);
    lemma_fixed_digits(v, len);
}

/// A product written with enough digits for it is `product_digits`.
pub proof fn lemma_product_digits(a: Seq<u8>, b: Seq<u8>)
    ensures
        is_product(a, b, product_digits(a, b)),
{
    let v = value_of(a) * value_of(b);
    let len = max_nat(product_len(a.len(), b.len()), num_digits(v));
    lemma_num_digits_pow10(v, len);
    lemma_fixed_digits(v, len);
}

/// A quotient written without leading zeros is `quotient_digits`.
pub proof fn lemma_quotient_digits(a: Seq<u8>, b: Seq<u8>)
    requires
        value_of(b) > 0,
    ensures
        is_quotient(a, b, quotient_digits(a, b)),
{
    let v = value_of(a) / value_of(b);
    lemma_num_digits_pow10(v, num_digits(v));
    lemma_fixed_digits(v, num_digits(v));
}

/// A difference of a larger number and a smaller one is `difference_digits`.
pub proof fn lemma_difference_digits(a: Seq<u8>, b: Seq<u8>)
    requires
        all_digits(a),
        value_of(a) >= value_of(b),
    ensures
        is_difference(a, b, difference_digits(a, b)),
{
    let v = (value_of(a) - value_of(b)) as nat;
    let len = max_nat(a.len(), b.len());
    lemma_value_bound(a);
    crate::digits::lemma_pow10_mono(a.len(), len);
    lemma_fixed_digits(v, len);
}

/// `r` is what `add` gives for `a` and `b`: their sum, with the longer
/// operand's length, or one digit more where the sum needs it.
pub open spec fn is_sum(a: Seq<u8>, b: Seq<u8>, r: Seq<u8>) -> bool {
    &&& all_digits(r)
    &&& value_of(r) == value_of(a) + value_of(b)
    &&& r.len() == max_nat(max_nat(a.len(), b.len()), num_digits(value_of(r)))
}

/// `r` is what `sub` gives for `a` and `b`: their difference, with the longer
/// operand's length.
pub open spec fn is_difference(a: Seq<u8>, b: Seq<u8>, r: Seq<u8>) -> bool {
    &&& all_digits(r)
    &&& value_of(a) >= value_of(b)
    &&& value_of(r) == value_of(a) - value_of(b)
    &&& r.len() == max_nat(a.len(), b.len())
}

/// `r` is what `mul` gives for `a` and `b`: their product, with
/// `a.len() + b.len() - 1` digits or as many more as the product needs.
pub open spec fn is_product(a: Seq<u8>, b: Seq<u8>, r: Seq<u8>) -> bool {
    &&& all_digits(r)
    &&& value_of(r) == value_of(a) * value_of(b)
    &&& r.len() == max_nat(product_len(a.len(), b.len()), num_digits(value_of(r)))
}

/// `r` is what `div` gives for `a` and `b`: the floor quotient by a nonzero
/// divisor, without leading zeros.
pub open spec fn is_quotient(a: Seq<u8>, b: Seq<u8>, r: Seq<u8>) -> bool {
    &&& all_digits(r)
    &&& value_of(b) > 0
    &&& value_of(r) == value_of(a) / value_of(b)
    &&& r.len() == num_digits(value_of(r))
}

/// Sum of the values of the sequences.
pub open spec fn total_value(s: Seq<Seq<u8>>) -> nat
    decreases s.len(),
{
    if s.len() == 0 {
        0
    } else {
        total_value(s.drop_last()) + value_of(s.last())
    }
}

/// Length of the longest of the sequences; 0 for none.
pub open spec fn longest(s: Seq<Seq<u8>>) -> nat
    decreases s.len(),
{
    if s.len() == 0 {
        0
    } else {
        max_nat(longest(s.drop_last()), s.last().len())
    }
}

/// Adding one more number to a running sum keeps its length the longest
/// length so far, or the length the sum needs.
pub(crate) proof fn lemma_fold_step(done: Seq<Seq<u8>>, next: Seq<u8>, acc: Seq<u8>, item: Seq<u8>)
    requires
        item == next,
        value_of(acc) == total_value(done),
        acc.len() == max_nat(longest(done), num_digits(value_of(acc))),
    ensures
        ({
            let all = done.push(next);
            forall|r: Seq<u8>|
                #[trigger] is_sum(acc, item, r) ==> value_of(r) == total_value(all) && r.len()
                    == max_nat(longest(all), num_digits(value_of(r)))
        }),
{
    let all = done.push(next);
    assert(all.drop_last() =~= done);
    assert forall|r: Seq<u8>| #[trigger] is_sum(acc, item, r) implies value_of(r) == total_value(all)
        && r.len() == max_nat(longest(all), num_digits(value_of(r))) by {
        crate::digits::lemma_num_digits_mono(value_of(acc), value_of(r));
    }
}

/// The order of two numbers.
pub open spec fn order_of(a: nat, b: nat) -> core::cmp::Ordering {
    if a < b {
        core::cmp::Ordering::Less
    } else if a == b {
        core::cmp::Ordering::Equal
    } else {
        core::cmp::Ordering::Greater
    }
}

/// Reads one character as a decimal digit.
pub(crate) fn digit_of(c: char) -> (r: Option<u8>)
    ensures
        r == char_value(c),
{
    match c {
        '0' => Some(0),
        '1' => Some(1),
        '2' => Some(2),
        '3' => Some(3),
        '4' => Some(4),
        '5' => Some(5),
        '6' => Some(6),
        '7' => Some(7),
        '8' => Some(8),
        '9' => Some(9),
        _ => None,
    }
}

/// The one-character text of a decimal digit.
fn digit_str(d: u8) -> (r: &'static str)
    requires
        d <= 9,
    ensures
        r@ == seq![digit_char(d)],
{
    proof {
        reveal_strlit("0");
        reveal_strlit("1");
        reveal_strlit("2");
        reveal_strlit("3");
        reveal_strlit("4");
        reveal_strlit("5");
        reveal_strlit("6");
        reveal_strlit("7");
        reveal_strlit("8");
        reveal_strlit("9");
    }
    match d {
        0 => "0",
        1 => "1",
        2 => "2",
        3 => "3",
        4 => "4",
        5 => "5",
        6 => "6",
        7 => "7",
        8 => "8",
        _ => "9",
    }
}

/// Reads a text of decimal digits, one digit per character, in order; any
/// other character makes the whole text unreadable.
pub(crate) fn parse_digits(ns: &str) -> (r: Option<Vec<u8>>)
    ensures
        r.is_some() <==> is_decimal_text(ns@),
        r matches Some(ds) ==> ds@ == text_digits(ns@) && all_digits(ds@),
{
    let mut digits: Vec<u8> = Vec::new();
    let mut readable = true;
    let len = ns.unicode_len();
    let mut i: usize = 0;
    while i < len
        invariant
            len == ns@.len(),
            i <= len,
            all_digits(digits@),
            readable <==> is_decimal_text(ns@.subrange(0, i as int)),
            readable ==> digits@ == text_digits(ns@.subrange(0, i as int)),
        decreases len - i,
    {
        let c = ns.get_char(i);
        let ghost before = digits@;
        match digit_of(c) {
            Some(d) => {
                digits.push(d);
            },
            None => {
                readable = false;
            },
        }
        proof {
            let pre = ns@.subrange(0, i as int);
            let post = ns@.subrange(0, i + 1);
            assert(post =~= pre.push(c));
            assert(is_decimal_text(post) <==> is_decimal_text(pre) && char_value(c).is_some())
                by {
                if is_decimal_text(pre) && char_value(c).is_some() {
                    assert forall|j: int| 0 <= j < post.len() implies (#[trigger] char_value(
                        post[j],
                    )).is_some() by {
                        if j < pre.len() {
                            assert(post[j] == pre[j]);
                        }
                    }
                }
                if is_decimal_text(post) {
                    assert(char_value(post[i as int]).is_some());
                    assert forall|j: int| 0 <= j < pre.len() implies (#[trigger] char_value(
                        pre[j],
                    )).is_some() by {
                        assert(post[j] == pre[j]);
                    }
                }
            }
            if readable {
                assert(text_digits(post) =~= text_digits(pre).push(char_value(c).unwrap()));
            }
            assert(all_digits(digits@)) by {
                assert forall|j: int| 0 <= j < digits@.len() implies #[trigger] digits@[j]
                    <= 9 by {
                    if j < before.len() {
                        assert(digits@[j] == before[j]);
                    }
                }
            }
        }
        i += 1;
    }
    proof {
        assert(ns@.subrange(0, len as int) =~= ns@);
    }
    if readable {
        Some(digits)
    } else {
        None
    }
}

/// The text of a digit sequence: "0" when it is empty, otherwise one
/// character per digit, leading zeros included.
pub(crate) fn render_digits(ds: &Vec<u8>) -> (r: String)
    requires
        all_digits(ds@),
    ensures
        r@ == render(ds@),
{
    let mut out = String::new();
    if ds.len() == 0 {
        proof {
            reveal_strlit("0");
        }
        out.append("0");
        assert(out@ =~= seq!['0']);
    } else {
        let mut i: usize = 0;
        while i < ds.len()
            invariant
                i <= ds@.len(),
                all_digits(ds@),
                out@ == ds@.subrange(0, i as int).map_values(|d: u8| digit_char(d)),
            decreases ds@.len() - i,
        {
            let piece = digit_str(ds[i]);
            out.append(piece);
            i += 1;
            assert(out@ =~= ds@.subrange(0, i as int).map_values(|d: u8| digit_char(d)));
        }
        assert(ds@.subrange(0, ds@.len() as int) =~= ds@);
    }
    out
}

/// The canonical decimal digits of `n`: "0" for zero, no leading zeros otherwise.
pub(crate) fn decimal_digits(n: u64) -> (r: Vec<u8>)
    ensures
        all_digits(r@),
        value_of(r@) == n as nat,
        r@.len() == max_nat(1, num_digits(n as nat)),
        r@ == decimal_of(n as nat),
{
    let mut digits: Vec<u8> = Vec::new();
    if n == 0 {
        digits.push(0);
        proof {
            lemma_value_single(0);
        }
    } else {
        proof {
            assert(all_digits(digits@));
            assert(value_of(digits@) == 0);
            assert(pow10(0) == 1);
        }
        prepend_decimal(&mut digits, n);
    }
    proof {
        lemma_decimal_of(n as nat);
        lemma_digits_unique(digits@, decimal_of(n as nat));
    }
    digits
}

/// Where the next digit of a decimal value goes in front of already written digits.
proof fn lemma_prepend_digit(c: nat, out: Seq<u8>, d: u8)
    requires
        d as nat == c % 10,
    ensures
        c * pow10(out.len()) + value_of(out) == (c / 10) * pow10(out.len() + 1) + value_of(
            seq![d] + out,
        ),
{
    lemma_value_append(seq![d], out);
    assert(seq![d].drop_last() =~= Seq::<u8>::empty());
    assert(seq![d].last() == d);
    assert(value_of(Seq::<u8>::empty()) == 0);
    assert(value_of(seq![d]) == d as nat);
    let p = pow10(out.len());
    assert(pow10(out.len() + 1) == 10 * p);
    assert(c * p == (c / 10) * (10 * p) + (c % 10) * p) by (nonlinear_arith);
}

/// Writes the decimal digits of `c` in front of `out`.
fn prepend_decimal(out: &mut Vec<u8>, c: u64)
    requires
        all_digits(old(out)@),
    ensures
        all_digits(final(out)@),
        final(out)@.len() == old(out)@.len() + num_digits(c as nat),
        value_of(final(out)@) == c as nat * pow10(old(out)@.len()) + value_of(old(out)@),
{
    let ghost n0 = out@.len();
    let ghost c0 = c as nat;
    let ghost v0 = c as nat * pow10(out@.len()) + value_of(out@);
    let mut c = c;
    while c > 0
        invariant
            all_digits(out@),
            out@.len() + num_digits(c as nat) == n0 + num_digits(c0),
            v0 == c as nat * pow10(out@.len()) + value_of(out@),
        decreases c,
    {
        let d = (c % 10) as u8;
        let ghost before = out@;
        proof {
            lemma_prepend_digit(c as nat, out@, d);
        }
        out.insert(0, d);
        assert(out@ =~= seq![d] + before);
        assert(all_digits(out@)) by {
            assert forall|i: int| 0 <= i < out@.len() implies #[trigger] out@[i] <= 9 by {
                if i > 0 {
                    assert(out@[i] == before[i - 1]);
                }
            }
        }
        c = c / 10;
    }
}

proof fn lemma_spread_step(q: nat, r: nat, c: nat, p: nat)
    ensures
        (q * 10 + r + c) * p == (q + (r + c) / 10) * (10 * p) + ((r + c) % 10) * p,
{
    assert((q * 10 + r + c) * p == (q + (r + c) / 10) * (10 * p) + ((r + c) % 10) * p)
        by (nonlinear_arith);
}

pub(crate) proof fn lemma_value_single(d: u8)
    ensures
        value_of(seq![d]) == d as nat,
{
    assert(seq![d].drop_last() =~= Seq::<u8>::empty());
    assert(seq![d].last() == d);
    assert(value_of(Seq::<u8>::empty()) == 0);
}

pub(crate) proof fn lemma_value_push(s: Seq<u8>, d: u8)
    ensures
        value_of(s.push(d)) == value_of(s) * 10 + d as nat,
{
    assert(s.push(d).drop_last() =~= s);
}

impl BigInt {
    #[verifier::type_invariant]
    spec fn well_formed(&self) -> bool {
        all_digits(self.digits@)
    }

    /// The number this value stands for.
    pub open spec fn value(&self) -> nat {
        value_of(self@)
    }

    /// Zero, with no digits.
    pub fn zero() -> (r: BigInt)
        ensures
            r@ == Seq::<u8>::empty(),
            r.value() == 0,
    {
        BigInt { digits: Vec::new() }
    }

    /// The canonical decimal digits of `n`: "0" for zero, no leading zeros otherwise.
    pub fn of(n: u64) -> (r: BigInt)
        ensures
            r.value() == n as nat,
            r@.len() == max_nat(1, num_digits(n as nat)),
            r@ == decimal_of(n as nat),
    {
        let digits = decimal_digits(n);
        BigInt { digits }
    }

    /// Reads a text of decimal digits, one digit per character, in order. Any
    /// other character makes the whole text unreadable; the empty text is zero.
    pub fn parse(ns: &str) -> (r: Option<BigInt>)
        ensures
            r.is_some() <==> is_decimal_text(ns@),
            r.is_some() ==> r.unwrap()@ == text_digits(ns@),
    {
        match parse_digits(ns) {
            Some(digits) => Some(BigInt { digits }),
            None => None,
        }
    }

    /// Decimal left shift: appends `n` zero digits, which multiplies by 10^n.
    fn decimal_lsh(self, n: usize) -> (r: BigInt)
        requires
            self@.len() + n <= usize::MAX,
        ensures
            r@ == self@ + zeros(n as nat),
            r.value() == self.value() * pow10(n as nat),
    {
        proof {
            use_type_invariant(&self);
        }
        let mut digits = self.digits;
        let ghost start = digits@;
        let mut k: usize = 0;
        while k < n
            invariant
                k <= n,
                digits@ == start + zeros(k as nat),
            decreases n - k,
        {
            digits.push(0);
            k += 1;
            assert(digits@ =~= start + zeros(k as nat));
        }
        proof {
            lemma_value_append(start, zeros(n as nat));
            crate::digits::lemma_value_zeros(n as nat);
            assert(all_digits(digits@)) by {
                assert forall|j: int| 0 <= j < digits@.len() implies #[trigger] digits@[j] <= 9 by {
                    if j < start.len() {
                        assert(digits@[j] == start[j]);
                    }
                }
            }
        }
        BigInt { digits }
    }

    /// Carries every entry above 9 into the next more significant position,
    /// writing what is left over at the top as further leading digits.
    pub(crate) fn spread_decimals_out(raw: Vec<u8>) -> (out: Vec<u8>)
        ensures
            all_digits(out@),
            value_of(out@) == value_of(raw@),
            out@.len() == max_nat(raw@.len(), num_digits(value_of(raw@))),
    {
        let n = raw.len();
        let mut out = raw;
        let mut carry: u32 = 0;
        let mut ix: usize = n;
        proof {
            assert(raw@.subrange(0, n as int) =~= raw@);
            assert(out@.subrange(n as int, n as int) =~= Seq::<u8>::empty());
            assert(value_of(Seq::<u8>::empty()) == 0);
            assert(pow10(0) == 1);
            assert((n - ix) as nat == 0);
            assert((value_of(raw@) + 0) * 1 == value_of(raw@));
        }
        while ix > 0
            invariant
                out@.len() == n == raw@.len(),
                ix <= n,
                out@.subrange(0, ix as int) == raw@.subrange(0, ix as int),
                all_digits(out@.subrange(ix as int, n as int)),
                carry <= 28,
                value_of(raw@) == (value_of(raw@.subrange(0, ix as int)) + carry) * pow10(
                    (n - ix) as nat,
                ) + value_of(out@.subrange(ix as int, n as int)),
            decreases ix,
        {
            let ghost old_out = out@;
            let ghost old_carry = carry;
            ix -= 1;
            assert(out@[ix as int] == out@.subrange(0, ix + 1)[ix as int]);
            assert(raw@[ix as int] == raw@.subrange(0, ix + 1)[ix as int]);
            let v: u32 = out[ix] as u32 + carry;
            out.set(ix, (v % 10) as u8);
            carry = v / 10;
            proof {
                let q = raw@.subrange(0, ix as int);
                let p = raw@.subrange(0, ix + 1);
                assert(p.drop_last() =~= q);
                lemma_value_push(q, raw@[ix as int]);
                assert(p =~= q.push(raw@[ix as int]));
                let k = (n - ix - 1) as nat;
                let old_suffix = old_out.subrange(ix + 1, n as int);
                let new_suffix = out@.subrange(ix as int, n as int);
                assert(new_suffix =~= seq![(v % 10) as u8] + old_suffix);
                lemma_value_append(seq![(v % 10) as u8], old_suffix);
                lemma_value_single((v % 10) as u8);
                lemma_spread_step(value_of(q), raw@[ix as int] as nat, old_carry as nat, pow10(k));
                assert(pow10(k + 1) == 10 * pow10(k));
                assert((n - ix) as nat == k + 1);
                assert(out@.subrange(0, ix as int) =~= old_out.subrange(0, ix as int));
                assert(old_out.subrange(0, ix as int) =~= old_out.subrange(0, ix + 1).subrange(
                    0,
                    ix as int,
                ));
                assert(raw@.subrange(0, ix as int) =~= raw@.subrange(0, ix + 1).subrange(
                    0,
                    ix as int,
                ));
                assert(all_digits(new_suffix)) by {
                    assert forall|j: int| 0 <= j < new_suffix.len() implies #[trigger] new_suffix[j]
                        <= 9 by {
                        if j > 0 {
                            assert(new_suffix[j] == old_suffix[j - 1]);
                        }
                    }
                }
            }
        }
        proof {
            assert(raw@.subrange(0, 0) =~= Seq::<u8>::empty());
            assert(out@.subrange(0, n as int) =~= out@);
            lemma_value_bound(out@);
            lemma_num_digits_prefixed(carry as nat, n as nat, value_of(out@));
        }
        prepend_decimal(&mut out, carry as u64);
        out
    }

    /// Left-pads with zero digits up to `n` digits; the value is unchanged.
    fn zero_padded_to(self, n: usize) -> (r: BigInt)
        requires
            n >= self@.len(),
        ensures
            r@ == zeros((n - self@.len()) as nat) + self@,
            r.value() == self.value(),
    {
        proof {
            use_type_invariant(&self);
        }
        let pad = n - self.digits.len();
        let mut digits: Vec<u8> = Vec::new();
        let mut k: usize = 0;
        while k < pad
            invariant
                k <= pad,
                digits@ == zeros(k as nat),
            decreases pad - k,
        {
            digits.push(0);
            k += 1;
            assert(digits@ =~= zeros(k as nat));
        }
        let mut i: usize = 0;
        while i < self.digits.len()
            invariant
                i <= self@.len(),
                all_digits(self@),
                digits@ == zeros(pad as nat) + self@.subrange(0, i as int),
            decreases self@.len() - i,
        {
            digits.push(self.digits[i]);
            i += 1;
            assert(digits@ =~= zeros(pad as nat) + self@.subrange(0, i as int));
        }
        proof {
            assert(self@.subrange(0, self@.len() as int) =~= self@);
            lemma_value_leading_zeros(pad as nat, self@);
            assert(all_digits(digits@)) by {
                assert forall|j: int| 0 <= j < digits@.len() implies #[trigger] digits@[j] <= 9 by {
                    if j >= pad {
                        assert(digits@[j] == self@[j - pad]);
                    }
                }
            }
        }
        BigInt { digits }
    }

    /// Tells whether every stored entry is a single decimal digit, which every
    /// value of this type keeps.
    pub fn sanity_check(&self) -> (r: bool)
        ensures
            r == all_digits(self@),
            r,
    {
        proof {
            use_type_invariant(self);
        }
        let mut i: usize = 0;
        while i < self.digits.len()
            invariant
                i <= self@.len(),
                all_digits(self@),
            decreases self@.len() - i,
        {
            if self.digits[i] > 9 {
                return false;
            }
            i += 1;
        }
        true
    }

    /// The sum. Both operands are padded to the longer length, added digit by
    /// digit and the carries spread out, so the result keeps that length and
    /// gains a leading digit only when the sum needs one.
    pub fn add(self, other: BigInt) -> (r: BigInt)
        ensures
            is_sum(self@, other@, r@),
            r@ == sum_digits(self@, other@),
    {
        let max_length = if self.digits.len() >= other.digits.len() {
            self.digits.len()
        } else {
            other.digits.len()
        };
        let lhs = self.zero_padded_to(max_length);
        let rhs = other.zero_padded_to(max_length);
        proof {
            use_type_invariant(&lhs);
            use_type_invariant(&rhs);
            assert(lhs@.subrange(0, 0) =~= Seq::<u8>::empty());
            assert(rhs@.subrange(0, 0) =~= Seq::<u8>::empty());
        }
        let mut out: Vec<u8> = Vec::new();
        let mut i: usize = 0;
        while i < max_length
            invariant
                i <= max_length,
                out@.len() == i,
                lhs@.len() == max_length,
                rhs@.len() == max_length,
                all_digits(lhs@),
                all_digits(rhs@),
                value_of(out@) == value_of(lhs@.subrange(0, i as int)) + value_of(
                    rhs@.subrange(0, i as int),
                ),
            decreases max_length - i,
        {
            let x = lhs.digits[i] + rhs.digits[i];
            proof {
                lemma_value_push(out@, x);
                assert(lhs@.subrange(0, i + 1) =~= lhs@.subrange(0, i as int).push(lhs@[i as int]));
                assert(rhs@.subrange(0, i + 1) =~= rhs@.subrange(0, i as int).push(rhs@[i as int]));
                lemma_value_push(lhs@.subrange(0, i as int), lhs@[i as int]);
                lemma_value_push(rhs@.subrange(0, i as int), rhs@[i as int]);
            }
            out.push(x);
            i += 1;
        }
        proof {
            assert(lhs@.subrange(0, max_length as int) =~= lhs@);
            assert(rhs@.subrange(0, max_length as int) =~= rhs@);
        }
        let digits = Self::spread_decimals_out(out);
        proof {
            lemma_fixed_digits_of(digits@);
        }
        BigInt { digits }
    }

    /// The decimal text: "0" when there are no digits, otherwise one character
    /// per stored digit, leading zeros included.
    pub fn to_string(&self) -> (r: String)
        ensures
            r@ == render(self@),
    {
        proof {
            use_type_invariant(self);
        }
        render_digits(&self.digits)
    }
    /// Numeric comparison: both are padded to the same length and compared
    /// digit by digit from the most significant end.
    pub fn compare(&self, other: &BigInt) -> (r: core::cmp::Ordering)
        ensures
            r == order_of(self.value(), other.value()),
    {
        let max_length = if self.digits.len() >= other.digits.len() {
            self.digits.len()
        } else {
            other.digits.len()
        };
        let lhs = self.clone().zero_padded_to(max_length);
        let rhs = other.clone().zero_padded_to(max_length);
        proof {
            use_type_invariant(&lhs);
            use_type_invariant(&rhs);
            assert(lhs@.subrange(0, 0) =~= Seq::<u8>::empty());
            assert(rhs@.subrange(0, 0) =~= Seq::<u8>::empty());
        }
        let mut ord = core::cmp::Ordering::Equal;
        let mut i: usize = 0;
        while i < max_length
            invariant
                i <= max_length,
                lhs@.len() == max_length,
                rhs@.len() == max_length,
                all_digits(lhs@),
                all_digits(rhs@),
                ord == order_of(
                    value_of(lhs@.subrange(0, i as int)),
                    value_of(rhs@.subrange(0, i as int)),
                ),
            decreases max_length - i,
        {
            let x = lhs.digits[i];
            let y = rhs.digits[i];
            proof {
                assert(lhs@.subrange(0, i + 1) =~= lhs@.subrange(0, i as int).push(x));
                assert(rhs@.subrange(0, i + 1) =~= rhs@.subrange(0, i as int).push(y));
                lemma_value_push(lhs@.subrange(0, i as int), x);
                lemma_value_push(rhs@.subrange(0, i as int), y);
            }
            match ord {
                core::cmp::Ordering::Equal => {
                    if x < y {
                        ord = core::cmp::Ordering::Less;
                    } else if x > y {
                        ord = core::cmp::Ordering::Greater;
                    }
                },
                _ => {},
            }
            i += 1;
        }
        proof {
            assert(lhs@.subrange(0, max_length as int) =~= lhs@);
            assert(rhs@.subrange(0, max_length as int) =~= rhs@);
        }
        ord
    }

    /// The difference. It is refused when `other` is the larger number, which
    /// has no representation here; otherwise both are padded to the longer
    /// length and subtracted digit by digit from the least significant end,
    /// borrowing from the next more significant digit where needed. The
    /// result keeps that length.
    pub fn sub(self, other: BigInt) -> (r: Result<BigInt, BigIntError>)
        ensures
            self.value() < other.value() ==> r == Err::<BigInt, BigIntError>(
                BigIntError::NegativeResult,
            ),
            self.value() >= other.value() ==> r.is_ok() && is_difference(
                self@,
                other@,
                r.unwrap()@,
            ) && r.unwrap()@ == difference_digits(self@, other@),
    {
        match self.compare(&other) {
            core::cmp::Ordering::Less => {
                return Err(BigIntError::NegativeResult);
            },
            _ => {},
        }
        let max_length = if self.digits.len() >= other.digits.len() {
            self.digits.len()
        } else {
            other.digits.len()
        };
        let lhs = self.zero_padded_to(max_length);
        let rhs = other.zero_padded_to(max_length);
        proof {
            use_type_invariant(&lhs);
            use_type_invariant(&rhs);
        }
        let mut out: Vec<u8> = Vec::new();
        let mut k: usize = 0;
        while k < max_length
            invariant
                k <= max_length,
                out@ == zeros(k as nat),
            decreases max_length - k,
        {
            out.push(0);
            k += 1;
            assert(out@ =~= zeros(k as nat));
        }
        let n = max_length;
        let mut borrow: u8 = 0;
        let mut ix: usize = n;
        proof {
            assert(lhs@.subrange(n as int, n as int) =~= Seq::<u8>::empty());
            assert(rhs@.subrange(n as int, n as int) =~= Seq::<u8>::empty());
            assert(out@.subrange(n as int, n as int) =~= Seq::<u8>::empty());
            assert(value_of(Seq::<u8>::empty()) == 0);
        }
        while ix > 0
            invariant
                ix <= n,
                lhs@.len() == n,
                rhs@.len() == n,
                out@.len() == n,
                all_digits(lhs@),
                all_digits(rhs@),
                all_digits(out@.subrange(ix as int, n as int)),
                borrow <= 1,
                value_of(lhs@.subrange(ix as int, n as int)) + borrow as nat * pow10(
                    (n - ix) as nat,
                ) == value_of(rhs@.subrange(ix as int, n as int)) + value_of(
                    out@.subrange(ix as int, n as int),
                ),
            decreases ix,
        {
            let ghost old_out = out@;
            let ghost old_borrow = borrow;
            ix -= 1;
            let x = lhs.digits[ix];
            let y = rhs.digits[ix];
            let d: u8;
            if x >= y + borrow {
                d = x - y - borrow;
                borrow = 0;
            } else {
                d = x + 10 - y - borrow;
                borrow = 1;
            }
            out.set(ix, d);
            proof {
                let k = (n - ix - 1) as nat;
                let p = pow10(k);
                let ls = lhs@.subrange(ix + 1, n as int);
                let rs = rhs@.subrange(ix + 1, n as int);
                let os = old_out.subrange(ix + 1, n as int);
                assert(lhs@.subrange(ix as int, n as int) =~= seq![x] + ls);
                assert(rhs@.subrange(ix as int, n as int) =~= seq![y] + rs);
                assert(out@.subrange(ix as int, n as int) =~= seq![d] + os);
                lemma_value_append(seq![x], ls);
                lemma_value_append(seq![y], rs);
                lemma_value_append(seq![d], os);
                lemma_value_single(x);
                lemma_value_single(y);
                lemma_value_single(d);
                assert(pow10(k + 1) == 10 * p);
                assert((n - ix) as nat == k + 1);
                assert(x as nat + 10 * borrow as nat == y as nat + old_borrow as nat + d as nat);
                assert(x as nat * p + value_of(ls) + borrow as nat * (10 * p) == y as nat * p
                    + value_of(rs) + d as nat * p + value_of(os)) by (nonlinear_arith)
                    requires
                        x as nat + 10 * borrow as nat == y as nat + old_borrow as nat + d as nat,
                        value_of(ls) + old_borrow as nat * p == value_of(rs) + value_of(os),
                ;
                let ns = out@.subrange(ix as int, n as int);
                assert(all_digits(ns)) by {
                    assert forall|j: int| 0 <= j < ns.len() implies #[trigger] ns[j] <= 9 by {
                        if j > 0 {
                            assert(ns[j] == os[j - 1]);
                        }
                    }
                }
            }
        }
        proof {
            assert(lhs@.subrange(0, n as int) =~= lhs@);
            assert(rhs@.subrange(0, n as int) =~= rhs@);
            assert(out@.subrange(0, n as int) =~= out@);
            lemma_value_bound(out@);
            lemma_value_bound(lhs@);
            lemma_num_digits_pow10(value_of(out@), n as nat);
            if borrow == 1 {
                assert(value_of(lhs@) + pow10(n as nat) == value_of(rhs@) + value_of(out@));
            }
        }
        let digits = Self::spread_decimals_out(out);
        proof {
            lemma_fixed_digits_of(digits@);
        }
        Ok(BigInt { digits })
    }

    /// The product. Each digit of `rhs`, from the least significant, multiplies
    /// every digit of `self`; that partial product has its carries spread out
    /// and is shifted by the digit's position, and the partial products are
    /// summed. The result has at least `self@.len() + rhs@.len() - 1` digits.
    pub fn mul(self, rhs: BigInt) -> (r: BigInt)
        requires
            self@.len() + rhs@.len() <= usize::MAX,
        ensures
            is_product(self@, rhs@, r@),
            r@ == product_digits(self@, rhs@),
    {
        proof {
            use_type_invariant(&self);
            use_type_invariant(&rhs);
            assert(rhs@.subrange(rhs@.len() as int, rhs@.len() as int) =~= Seq::<u8>::empty());
            assert(value_of(Seq::<u8>::empty()) == 0);
            assert(self.value() * 0 == 0);
        }
        let la = self.digits.len();
        let lb = rhs.digits.len();
        let mut acc = BigInt::zero();
        let mut i: usize = 0;
        while i < lb
            invariant
                i <= lb == rhs@.len(),
                la == self@.len(),
                la + lb <= usize::MAX,
                all_digits(self@),
                all_digits(rhs@),
                acc.value() == self.value() * value_of(rhs@.subrange(lb - i, lb as int)),
                acc@.len() == max_nat(product_len(la as nat, i as nat), num_digits(acc.value())),
            decreases lb - i,
        {
            let d = rhs.digits[lb - 1 - i];
            let mut raw: Vec<u8> = Vec::new();
            let mut j: usize = 0;
            proof {
                assert(self@.subrange(0, 0) =~= Seq::<u8>::empty());
                assert(value_of(Seq::<u8>::empty()) == 0);
                assert(0 * d as nat == 0);
            }
            while j < la
                invariant
                    j <= la == self@.len(),
                    raw@.len() == j,
                    d <= 9,
                    all_digits(self@),
                    value_of(raw@) == value_of(self@.subrange(0, j as int)) * d as nat,
                decreases la - j,
            {
                let x = self.digits[j];
                assert(x <= 9);
                assert(x as nat * d as nat <= 81) by (nonlinear_arith)
                    requires
                        x <= 9,
                        d <= 9,
                ;
                let xd: u8 = x * d;
                proof {
                    lemma_value_push(raw@, xd);
                    assert(self@.subrange(0, j + 1) =~= self@.subrange(0, j as int).push(x));
                    lemma_value_push(self@.subrange(0, j as int), x);
                    let v = value_of(self@.subrange(0, j as int));
                    assert((v * d as nat) * 10 + x as nat * d as nat == (v * 10 + x as nat)
                        * d as nat) by (nonlinear_arith);
                }
                raw.push(xd);
                j += 1;
            }
            proof {
                assert(self@.subrange(0, la as int) =~= self@);
                lemma_value_bound(self@);
                assert(self.value() * d as nat <= self.value() * 9) by (nonlinear_arith)
                    requires
                        d <= 9,
                ;
                lemma_num_digits_pow10(self.value() * d as nat, la as nat + 1);
            }
            let spread = BigInt { digits: Self::spread_decimals_out(raw) };
            let partial = spread.decimal_lsh(i);
            let ghost before = acc.value();
            let ghost suffix = rhs@.subrange(lb - i, lb as int);
            acc = acc.add(partial);
            i += 1;
            proof {
                let a = self.value();
                let p = pow10((i - 1) as nat);
                assert(rhs@.subrange(lb - i, lb as int) =~= seq![d] + suffix);
                lemma_value_append(seq![d], suffix);
                lemma_value_single(d);
                assert(acc.value() == a * (d as nat * p + value_of(suffix))) by (nonlinear_arith)
                    requires
                        acc.value() == before + a * d as nat * p,
                        before == a * value_of(suffix),
                ;
                lemma_value_bound(suffix);
                lemma_pow10_positive((i - 1) as nat);
                assert(before <= acc.value());
                crate::digits::lemma_num_digits_mono(before, acc.value());
                crate::digits::lemma_num_digits_mono(a * d as nat * p, acc.value());
                if a * d as nat > 0 {
                    crate::digits::lemma_num_digits_shift(a * d as nat, (i - 1) as nat);
                }
            }
        }
        proof {
            assert(rhs@.subrange(0, lb as int) =~= rhs@);
            use_type_invariant(&acc);
            lemma_fixed_digits_of(acc@);
        }
        acc
    }

    /// The floor quotient, by repeated subtraction: while the remainder is at
    /// least `rhs`, the quotient grows by one and `rhs` is taken off the
    /// remainder. A zero divisor is refused. The quotient is written without
    /// leading zeros, and zero has no digits.
    pub fn div(self, rhs: BigInt) -> (r: Result<BigInt, BigIntError>)
        ensures
            rhs.value() == 0 ==> r == Err::<BigInt, BigIntError>(BigIntError::DivisionByZero),
            rhs.value() > 0 ==> r.is_ok() && is_quotient(self@, rhs@, r.unwrap()@) && r.unwrap()@
                == quotient_digits(self@, rhs@),
    {
        match rhs.compare(&BigInt::zero()) {
            core::cmp::Ordering::Equal => {
                return Err(BigIntError::DivisionByZero);
            },
            _ => {},
        }
        let ghost a = self.value();
        let mut out = BigInt::zero();
        let mut lhs = self.clone();
        proof {
            assert(0 * rhs.value() == 0);
        }
        while lhs >= rhs
            invariant
                rhs.value() > 0,
                out.value() * rhs.value() + lhs.value() == a,
                out@.len() == num_digits(out.value()),
            decreases lhs.value(),
        {
            let ghost q = out.value();
            out = out.add(BigInt::of(1));
            lhs = lhs.sub(rhs.clone()).unwrap();
            proof {
                assert((q + 1) * rhs.value() == q * rhs.value() + rhs.value()) by (nonlinear_arith);
                crate::digits::lemma_num_digits_mono(q, q + 1);
                crate::digits::lemma_num_digits_mono(1, q + 1);
                assert(num_digits(1) == 1) by {
                    assert(num_digits(0) == 0);
                }
            }
        }
        proof {
            vstd::arithmetic::div_mod::lemma_fundamental_div_mod_converse(
                a as int,
                rhs.value() as int,
                out.value() as int,
                lhs.value() as int,
            );
            use_type_invariant(&out);
            lemma_fixed_digits_of(out@);
        }
        Ok(out)
    }

    /// Adds up all the numbers, from zero, in order.
    pub fn sum(items: Vec<BigInt>) -> (r: BigInt)
        ensures
            all_digits(r@),
            r.value() == total_value(items@.map_values(|x: BigInt| x@)),
            r@.len() == max_nat(longest(items@.map_values(|x: BigInt| x@)), num_digits(r.value())),
    {
        let ghost all = items@.map_values(|x: BigInt| x@);
        let mut acc = BigInt::zero();
        proof {
            assert(all.subrange(0, 0) =~= Seq::<Seq<u8>>::empty());
            assert(value_of(Seq::<u8>::empty()) == 0);
            assert(num_digits(0) == 0);
        }
        let n = items.len();
        let mut i: usize = 0;
        while i < n
            invariant
                i <= n == items@.len(),
                all == items@.map_values(|x: BigInt| x@),
                all_digits(acc@),
                acc.value() == total_value(all.subrange(0, i as int)),
                acc@.len() == max_nat(longest(all.subrange(0, i as int)), num_digits(acc.value())),
            decreases n - i,
        {
            let item = items[i].clone();
            proof {
                lemma_fold_step(all.subrange(0, i as int), all[i as int], acc@, item@);
                assert(all.subrange(0, i + 1) =~= all.subrange(0, i as int).push(all[i as int]));
            }
            acc = acc.add(item);
            i += 1;
        }
        proof {
            assert(all.subrange(0, n as int) =~= all);
        }
        acc
    }
}

impl PartialEq for BigInt {
    /// Numeric equality: leading zeros do not matter.
    fn eq(&self, other: &BigInt) -> (r: bool) {
        match self.compare(other) {
            core::cmp::Ordering::Equal => true,
            _ => false,
        }
    }
}

impl vstd::std_specs::cmp::PartialEqSpecImpl for BigInt {
    open spec fn obeys_eq_spec() -> bool {
        true
    }

    open spec fn eq_spec(&self, other: &BigInt) -> bool {
        self.value() == other.value()
    }
}

impl PartialOrd for BigInt {
    /// Numeric order, always defined.
    fn partial_cmp(&self, other: &BigInt) -> (r: Option<core::cmp::Ordering>) {
        Some(self.compare(other))
    }
}

impl vstd::std_specs::cmp::PartialOrdSpecImpl for BigInt {
    open spec fn obeys_partial_cmp_spec() -> bool {
        true
    }

    open spec fn partial_cmp_spec(&self, other: &BigInt) -> Option<core::cmp::Ordering> {
        Some(order_of(self.value(), other.value()))
    }
}


impl Clone for BigInt {
    fn clone(&self) -> (r: BigInt)
        ensures
            r@ == self@,
    {
        proof {
            use_type_invariant(self);
        }
        let mut digits: Vec<u8> = Vec::new();
        let mut i: usize = 0;
        while i < self.digits.len()
            invariant
                i <= self@.len(),
                digits@ == self@.subrange(0, i as int),
            decreases self@.len() - i,
        {
            digits.push(self.digits[i]);
            i += 1;
            assert(digits@ =~= self@.subrange(0, i as int));
        }
        assert(digits@ =~= self@);
        BigInt { digits }
    }
}

/// n!, the product of 1 to n.
pub open spec fn factorial(n: nat) -> nat
    decreases n,
{
    if n == 0 {
        1
    } else {
        n * factorial((n - 1) as nat)
    }
}

/// Number of digits of the factorial of a number `k` written with `w` digits:
/// each factor keeps the width `w` of the argument, so each product has at
/// least `w - 1` more digits than the one before.
pub open spec fn factorial_len(w: nat, k: nat) -> nat
    decreases k,
{
    if k == 0 {
        1
    } else {
        max_nat(product_len(w, factorial_len(w, (k - 1) as nat)), num_digits(factorial(k)))
    }
}

/// The factorial of a `w`-digit `k` can be written in memory.
pub open spec fn factorial_fits(w: nat, k: nat) -> bool {
    w + factorial_len(w, k) <= usize::MAX
}

proof fn lemma_factorial_len_mono(w: nat, j: nat, k: nat)
    requires
        w >= 1,
        j <= k,
    ensures
        1 <= factorial_len(w, j) <= factorial_len(w, k),
    decreases k,
{
    if j < k {
        lemma_factorial_len_mono(w, j, (k - 1) as nat);
    }
    if k > 0 {
        lemma_factorial_len_mono(w, (k - 1) as nat, (k - 1) as nat);
    }
}

/// The factorial, as the product n * ((n - 1) * ( ... * (1 * 1))) in which
/// every factor keeps the number of digits of `n`.
pub fn big_factorial(n: BigInt) -> (r: BigInt)
    requires
        factorial_fits(n@.len(), n.value()),
    ensures
        r.value() == factorial(n.value()),
        r@.len() == factorial_len(n@.len(), n.value()),
{
    let width = n.digits.len();
    let mut acc = BigInt::of(1);
    proof {
        assert(num_digits(1) == 1) by {
            assert(num_digits(0) == 0);
        }
        assert(factorial(0) == 1);
    }
    if n == BigInt::zero() {
        return acc;
    }
    proof {
        if width == 0 {
            assert(n@ =~= Seq::<u8>::empty());
        }
    }
    let mut factor = BigInt::of(1).zero_padded_to(width);
    let ghost k: nat = 1;
    while factor <= n
        invariant
            width == n@.len() >= 1,
            n.value() >= 1,
            factorial_fits(width as nat, n.value()),
            factor.value() == k,
            k <= n.value() ==> factor@.len() == width,
            1 <= k <= n.value() + 1,
            acc.value() == factorial((k - 1) as nat),
            acc@.len() == factorial_len(width as nat, (k - 1) as nat),
        decreases n.value() + 1 - factor.value(),
    {
        proof {
            lemma_factorial_len_mono(width as nat, (k - 1) as nat, n.value());
        }
        acc = factor.clone().mul(acc);
        proof {
            assert(factorial(k) == k * factorial((k - 1) as nat));
            assert(factorial_len(width as nat, k) == max_nat(
                product_len(width as nat, factorial_len(width as nat, (k - 1) as nat)),
                num_digits(factorial(k)),
            ));
            use_type_invariant(&n);
            lemma_value_bound(n@);
            lemma_num_digits_pow10(k + 1, width as nat);
            assert(num_digits(1) == 1) by {
                assert(num_digits(0) == 0);
            }
        }
        factor = factor.add(BigInt::of(1));
        proof {
            k = k + 1;
        }
    }
    acc
}

/// The number of ways to choose `k` items out of `n`, as
/// `n! / k! / (n - k)!`; refused when `k` exceeds `n`.
pub fn big_combination(n: BigInt, k: BigInt) -> (r: Result<BigInt, BigIntError>)
    requires
        factorial_fits(n@.len(), n.value()),
        factorial_fits(k@.len(), k.value()),
        n.value() >= k.value() ==> factorial_fits(
            max_nat(n@.len(), k@.len()),
            (n.value() - k.value()) as nat,
        ),
    ensures
        n.value() < k.value() ==> r == Err::<BigInt, BigIntError>(BigIntError::NegativeResult),
        n.value() >= k.value() ==> r.is_ok() && r.unwrap().value() == factorial(n.value())
            / factorial(k.value()) / factorial((n.value() - k.value()) as nat) && r.unwrap()@.len()
            == num_digits(r.unwrap().value()),
{
    let rest = match n.clone().sub(k.clone()) {
        Ok(v) => v,
        Err(e) => {
            return Err(e);
        },
    };
    let top = big_factorial(n);
    let low = big_factorial(k);
    let other = big_factorial(rest);
    proof {
        lemma_factorial_positive(k.value());
        lemma_factorial_positive((n.value() - k.value()) as nat);
    }
    let partial = top.div(low).unwrap();
    partial.div(other)
}

pub proof fn lemma_factorial_positive(n: nat)
    ensures
        factorial(n) >= 1,
    decreases n,
{
    if n > 0 {
        lemma_factorial_positive((n - 1) as nat);
        assert(n * factorial((n - 1) as nat) >= 1) by (nonlinear_arith)
            requires
                n >= 1,
                factorial((n - 1) as nat) >= 1,
        ;
    }
}

} // verus!
