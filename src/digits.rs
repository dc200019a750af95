//! The mathematical model of decimal digit sequences (most significant digit
//! first) and the facts about it that the arithmetic relies on.
use vstd::prelude::*;

verus! {

/// 10 to the power `n`.
pub open spec fn pow10(n: nat) -> nat
    decreases n,
{
    if n == 0 {
        1
    } else {
        10 * pow10((n - 1) as nat)
    }
}

/// Numeric value of a most-significant-first sequence of positional entries.
/// Entries above 9 are allowed: each simply weighs its own power of ten.
pub open spec fn value_of(ds: Seq<u8>) -> nat
    decreases ds.len(),
{
    if ds.len() == 0 {
        0
    } else {
        value_of(ds.drop_last()) * 10 + ds.last() as nat
    }
}

/// Every entry is a single decimal digit.
pub open spec fn all_digits(ds: Seq<u8>) -> bool {
    forall|i: int| 0 <= i < ds.len() ==> #[trigger] ds[i] <= 9
}

/// Number of digits in the canonical decimal form of `v`; zero has none.
pub open spec fn num_digits(v: nat) -> nat
    decreases v,
{
    if v == 0 {
        0
    } else {
        num_digits(v / 10) + 1
    }
}

/// `n` zero entries.
pub open spec fn zeros(n: nat) -> Seq<u8> {
    Seq::new(n, |i: int| 0u8)
}

pub proof fn lemma_pow10_positive(n: nat)
    ensures
        pow10(n) >= 1,
    decreases n,
{
    if n > 0 {
        lemma_pow10_positive((n - 1) as nat);
    }
}

pub proof fn lemma_pow10_add(a: nat, b: nat)
    ensures
        pow10(a + b) == pow10(a) * pow10(b),
    decreases b,
{
    if b == 0 {
        assert(pow10(0) == 1);
        assert(pow10(a) * 1 == pow10(a));
    } else {
        let b1 = (b - 1) as nat;
        lemma_pow10_add(a, b1);
        let x = pow10(a);
        let y = pow10(b1);
        assert(a + b1 + 1 == a + b);
        assert(pow10(a + b) == 10 * pow10(a + b1));
        assert(pow10(b) == 10 * y);
        assert(10 * (x * y) == x * (10 * y)) by (nonlinear_arith);
    }
}

pub proof fn lemma_pow10_mono(a: nat, b: nat)
    requires
        a <= b,
    ensures
        pow10(a) <= pow10(b),
    decreases b,
{
    if a < b {
        lemma_pow10_mono(a, (b - 1) as nat);
    }
}

/// The value of a concatenation: the front part is shifted by the length of the back.
pub proof fn lemma_value_append(s: Seq<u8>, t: Seq<u8>)
    ensures
        value_of(s + t) == value_of(s) * pow10(t.len()) + value_of(t),
    decreases t.len(),
{
    if t.len() == 0 {
        assert(s + t =~= s);
        assert(pow10(0) == 1);
        assert(value_of(s) * 1 == value_of(s));
    } else {
        let t0 = t.drop_last();
        lemma_value_append(s, t0);
        assert((s + t).drop_last() =~= s + t0);
        assert((s + t).last() == t.last());
        let vs = value_of(s);
        let p = pow10(t0.len());
        let v0 = value_of(t0);
        let d = t.last() as nat;
        assert(value_of(s + t) == value_of(s + t0) * 10 + d);
        assert(value_of(t) == v0 * 10 + d);
        assert(pow10(t.len()) == 10 * p);
        assert((vs * p + v0) * 10 + d == vs * (10 * p) + (v0 * 10 + d)) by (nonlinear_arith);
    }
}

pub proof fn lemma_value_zeros(n: nat)
    ensures
        value_of(zeros(n)) == 0,
    decreases n,
{
    if n > 0 {
        assert(zeros(n).drop_last() =~= zeros((n - 1) as nat));
        lemma_value_zeros((n - 1) as nat);
    }
}

/// Leading zeros do not change the value.
pub proof fn lemma_value_leading_zeros(n: nat, s: Seq<u8>)
    ensures
        value_of(zeros(n) + s) == value_of(s),
{
    lemma_value_append(zeros(n), s);
    lemma_value_zeros(n);
}

/// A sequence of digits stays below the next power of ten.
pub proof fn lemma_value_bound(s: Seq<u8>)
    requires
        all_digits(s),
    ensures
        value_of(s) < pow10(s.len()),
    decreases s.len(),
{
    if s.len() > 0 {
        let s0 = s.drop_last();
        assert(all_digits(s0)) by {
            assert forall|i: int| 0 <= i < s0.len() implies #[trigger] s0[i] <= 9 by {
                assert(s0[i] == s[i]);
            }
        }
        lemma_value_bound(s0);
        assert(s.last() == s[s.len() - 1]);
        assert(value_of(s0) + 1 <= pow10(s0.len()));
        assert((value_of(s0) + 1) * 10 <= pow10(s0.len()) * 10) by (nonlinear_arith)
            requires
                value_of(s0) + 1 <= pow10(s0.len()),
        ;
    }
}

/// A value has at most `n` digits exactly when it is below 10^n.
pub proof fn lemma_num_digits_pow10(v: nat, n: nat)
    ensures
        num_digits(v) <= n <==> v < pow10(n),
    decreases n,
{
    if n == 0 {
    } else if v == 0 {
        lemma_pow10_positive(n);
    } else {
        lemma_num_digits_pow10(v / 10, (n - 1) as nat);
        assert(pow10(n) == 10 * pow10((n - 1) as nat));
        assert(v / 10 < pow10((n - 1) as nat) <==> v < 10 * pow10((n - 1) as nat))
            by (nonlinear_arith);
    }
}

pub proof fn lemma_num_digits_mono(v: nat, w: nat)
    requires
        v <= w,
    ensures
        num_digits(v) <= num_digits(w),
    decreases w,
{
    if v > 0 {
        assert(v / 10 <= w / 10) by (nonlinear_arith)
            requires
                v <= w,
        ;
        lemma_num_digits_mono(v / 10, w / 10);
    }
}

/// Shifting a positive value by `i` decimal places adds `i` digits.
pub proof fn lemma_num_digits_shift(v: nat, i: nat)
    requires
        v > 0,
    ensures
        num_digits(v * pow10(i)) == num_digits(v) + i,
    decreases i,
{
    if i == 0 {
        assert(pow10(0) == 1);
        assert(v * 1 == v);
    } else {
        lemma_num_digits_shift(v, (i - 1) as nat);
        let w = v * pow10((i - 1) as nat);
        assert(v * pow10(i) == w * 10) by (nonlinear_arith)
            requires
                pow10(i) == 10 * pow10((i - 1) as nat),
                w == v * pow10((i - 1) as nat),
        ;
        lemma_pow10_positive((i - 1) as nat);
        assert(w > 0) by (nonlinear_arith)
            requires
                v > 0,
                pow10((i - 1) as nat) >= 1,
                w == v * pow10((i - 1) as nat),
        ;
        assert((w * 10) / 10 == w) by (nonlinear_arith);
        assert(num_digits(w * 10) == num_digits(w) + 1);
    }
}

/// Digit sequences of equal length and equal value are the same sequence.
pub proof fn lemma_digits_unique(s: Seq<u8>, t: Seq<u8>)
    requires
        all_digits(s),
        all_digits(t),
        s.len() == t.len(),
        value_of(s) == value_of(t),
    ensures
        s == t,
    decreases s.len(),
{
    if s.len() > 0 {
        let s0 = s.drop_last();
        let t0 = t.drop_last();
        assert(s.last() == s[s.len() - 1]);
        assert(t.last() == t[t.len() - 1]);
        let a = value_of(s0);
        let b = value_of(t0);
        let x = s.last() as nat;
        let y = t.last() as nat;
        assert(a == b && x == y) by (nonlinear_arith)
            requires
                a * 10 + x == b * 10 + y,
                x <= 9,
                y <= 9,
        ;
        assert(all_digits(s0)) by {
            assert forall|i: int| 0 <= i < s0.len() implies #[trigger] s0[i] <= 9 by {
                assert(s0[i] == s[i]);
            }
        }
        assert(all_digits(t0)) by {
            assert forall|i: int| 0 <= i < t0.len() implies #[trigger] t0[i] <= 9 by {
                assert(t0[i] == t[i]);
            }
        }
        lemma_digits_unique(s0, t0);
        assert(s =~= s0.push(s.last()));
        assert(t =~= t0.push(t.last()));
    }
}

/// A positive value written in front of `n` digits has its own digits plus `n`.
pub proof fn lemma_num_digits_prefixed(c: nat, n: nat, rest: nat)
    requires
        rest < pow10(n),
    ensures
        c == 0 ==> num_digits(c * pow10(n) + rest) <= n,
        c > 0 ==> num_digits(c * pow10(n) + rest) == num_digits(c) + n,
{
    let v = c * pow10(n) + rest;
    if c == 0 {
        assert(v == rest) by (nonlinear_arith)
            requires
                c == 0,
                v == c * pow10(n) + rest,
        ;
        lemma_num_digits_pow10(v, n);
    } else {
        let m = num_digits(c);
        assert(m >= 1);
        lemma_num_digits_pow10(c, m);
        lemma_num_digits_pow10(c, (m - 1) as nat);
        lemma_pow10_add((m - 1) as nat, n);
        lemma_pow10_add(m, n);
        let pn = pow10(n);
        let pm = pow10(m);
        let pm1 = pow10((m - 1) as nat);
        assert(v < pm * pn) by (nonlinear_arith)
            requires
                c < pm,
                rest < pn,
                v == c * pn + rest,
        ;
        assert(v >= pm1 * pn) by (nonlinear_arith)
            requires
                c >= pm1,
                v == c * pn + rest,
        ;
        assert((m - 1) as nat + n == (m + n - 1) as nat);
        lemma_num_digits_pow10(v, m + n);
        lemma_num_digits_pow10(v, (m + n - 1) as nat);
    }
}

/// The canonical decimal digits of `n`: a single 0 for zero, no leading zeros otherwise.
pub open spec fn decimal_of(n: nat) -> Seq<u8>
    decreases n,
{
    if n < 10 {
        seq![n as u8]
    } else {
        decimal_of(n / 10).push((n % 10) as u8)
    }
}

pub proof fn lemma_decimal_of(n: nat)
    ensures
        all_digits(decimal_of(n)),
        value_of(decimal_of(n)) == n,
        decimal_of(n).len() == if n == 0 {
            1
        } else {
            num_digits(n)
        },
    decreases n,
{
    let s = decimal_of(n);
    if n < 10 {
        assert(s.drop_last() =~= Seq::<u8>::empty());
        assert(value_of(Seq::<u8>::empty()) == 0);
        assert(s.last() == n as u8);
        if n > 0 {
            assert(num_digits(n / 10) == 0);
        }
    } else {
        lemma_decimal_of(n / 10);
        let t = decimal_of(n / 10);
        assert(s.drop_last() =~= t);
        assert(all_digits(s)) by {
            assert forall|i: int| 0 <= i < s.len() implies #[trigger] s[i] <= 9 by {
                if i < t.len() {
                    assert(s[i] == t[i]);
                }
            }
        }
        assert(n / 10 > 0);
    }
}

} // verus!
