//! Fibonacci-like sequences.
use vstd::prelude::*;

verus! {

/// Sum of the even terms below `limit` of the sequence that starts with `a`,
/// `b` and in which each term is the sum of the two before it.
pub open spec fn even_terms_below(a: nat, b: nat, limit: nat) -> nat
    decreases limit - a,
{
    if a >= limit || a == 0 || b <= a {
        0
    } else {
        (if a % 2 == 0 {
            a
        } else {
            0
        }) + if b >= limit {
            0
        } else {
            even_terms_below(b, a + b, limit)
        }
    }
}

/// Sum of the even Fibonacci numbers below four million, the sequence taken
/// as 1, 2, 3, 5, 8, ...
pub fn sum_even_fibs_under_4_million() -> (r: u32)
    ensures
        r == even_terms_below(1, 2, 4_000_000),
{
    let upper: u32 = 4_000_000;
    let mut fibs = Fib::start_from(1, 2);
    let mut total: u32 = 0;
    let mut all_seen: u32 = 0;
    while fibs.a < upper
        invariant
            upper == 4_000_000,
            1 <= fibs.a < fibs.b <= 2 * fibs.a,
            fibs.a <= 8_000_000,
            all_seen + 2 <= fibs.b,
            total <= all_seen,
            total + even_terms_below(fibs.a as nat, fibs.b as nat, upper as nat) == even_terms_below(
                1,
                2,
                4_000_000,
            ),
        decreases 8_000_000 - fibs.a,
    {
        let ghost a = fibs.a;
        let ghost b = fibs.b;
        assert(a + b <= u32::MAX);
        let x = fibs.next().unwrap();
        assert(x == a);
        assert(fibs.a == b && fibs.b == a + b);
        if x % 2 == 0 {
            total = total + x;
        }
        all_seen = all_seen + x;
    }
    assert(even_terms_below(fibs.a as nat, fibs.b as nat, upper as nat) == 0);
    total
}

/// The sequence from two given terms, each later term the sum of the two
/// before it.
pub struct Fib {
    pub a: u32,
    pub b: u32,
}

impl Fib {
    pub fn start_from(a: u32, b: u32) -> (r: Fib)
        ensures
            r.a == a,
            r.b == b,
    {
        Fib { a: a, b: b }
    }

    /// The current term, moving on by one; nothing once the term after the
    /// next one no longer fits in `u32`.
    pub fn next(&mut self) -> (r: Option<u32>)
        ensures
            old(self).a + old(self).b <= u32::MAX ==> r == Some(old(self).a) && final(self).a
                == old(self).b && final(self).b == old(self).a + old(self).b,
            old(self).a + old(self).b > u32::MAX ==> r.is_none() && *final(self) == *old(self),
    {
        let next_val = self.a;
        match self.a.checked_add(self.b) {
            Some(new_b) => {
                self.a = self.b;
                self.b = new_b;
                Some(next_val)
            },
            None => None,
        }
    }
}

} // verus!
