//! Small integer utilities: divisibility, factorials, triangular numbers and divisors.
use vstd::prelude::*;

use crate::primes::{
    count_product, factorize, first_primes, is_factorization, lemma_count_product_gap,
    lemma_count_product_same, lemma_factor_at_most, lemma_factorization_short,
    lemma_occurrences_absent, lemma_power_of_two_add, lemma_power_of_two_mono,
    lemma_successor_below_power, occurrences, power_of_two, CachedPrimes,
};



verus! {

/// `lhs` is a multiple of `rhs`.
pub fn is_divisible_by(lhs: u64, rhs: u64) -> (r: bool)
    requires
        rhs != 0,
    ensures
        r == (lhs % rhs == 0),
{
    lhs % rhs == 0
}

/// `lhs` is a multiple of every number of the range.
pub fn is_divisible_by_range(lhs: u64, rhs: core::ops::Range<u64>) -> (r: bool)
    requires
        rhs.start >= 1,
    ensures
        r == (forall|d: u64| rhs.start <= d < rhs.end ==> #[trigger] (lhs % d) == 0),
{
    let mut acc = true;
    let mut d = rhs.start;
    while d < rhs.end
        invariant
            rhs.start <= d,
            rhs.start >= 1,
            d >= rhs.end ==> d == rhs.start || d == rhs.end,
            acc == (forall|e: u64| rhs.start <= e < d ==> #[trigger] (lhs % e) == 0),
        decreases rhs.end - d,
    {
        acc = acc && is_divisible_by(lhs, d);
        d += 1;
    }
    acc
}

/// `lhs` is a multiple of every number of `rhs`.
pub fn is_divisible_by_ns(lhs: u64, rhs: &Vec<u64>) -> (r: bool)
    requires
        forall|i: int| 0 <= i < rhs@.len() ==> rhs@[i] != 0,
    ensures
        r == (forall|i: int| 0 <= i < rhs@.len() ==> lhs % #[trigger] rhs@[i] == 0),
{
    let mut acc = true;
    let mut i: usize = 0;
    while i < rhs.len()
        invariant
            i <= rhs@.len(),
            forall|j: int| 0 <= j < rhs@.len() ==> rhs@[j] != 0,
            acc == (forall|j: int| 0 <= j < i ==> lhs % #[trigger] rhs@[j] == 0),
        decreases rhs@.len() - i,
    {
        acc = acc && is_divisible_by(lhs, rhs[i]);
        i += 1;
    }
    acc
}

/// `x` is the largest of its multiples up to `n` for some `k` below `n`:
/// `k` divides `x` and `x + k` exceeds `n`.
pub open spec fn is_biggest_multiple(x: nat, n: nat) -> bool {
    exists|k: nat| 1 <= k < n && #[trigger] (x % k) == 0 && x + k > n
}

/// The numbers from 1 to `n`, in increasing order, that are the largest
/// multiple up to `n` of some number below `n`. A number divisible by all of
/// them is divisible by every number from 1 to `n`.
pub fn biggest_multiples_of_numbers_in_range_1_to_n(n: u64) -> (r: Vec<u64>)
    requires
        n < u64::MAX,
    ensures
        forall|i: int, j: int| 0 <= i < j < r@.len() ==> r@[i] < r@[j],
        forall|i: int|
            0 <= i < r@.len() ==> 1 <= #[trigger] r@[i] <= n && is_biggest_multiple(
                r@[i] as nat,
                n as nat,
            ),
        forall|x: u64| 1 <= x <= n && is_biggest_multiple(x as nat, n as nat) ==> r@.contains(x),
{
    let mut out: Vec<u64> = Vec::new();
    let mut x: u64 = 1;
    while x <= n
        invariant
            1 <= x <= n + 1,
            n < u64::MAX,
            forall|i: int, j: int| 0 <= i < j < out@.len() ==> out@[i] < out@[j],
            forall|i: int|
                0 <= i < out@.len() ==> 1 <= #[trigger] out@[i] < x && is_biggest_multiple(
                    out@[i] as nat,
                    n as nat,
                ),
            forall|y: u64|
                1 <= y < x && is_biggest_multiple(y as nat, n as nat) ==> out@.contains(y),
        decreases n + 1 - x,
    {
        let mut found = false;
        let mut k: u64 = 1;
        while k < n && !found
            invariant
                1 <= k <= n || (k == 1 && n == 0),
                x <= n,
                found ==> is_biggest_multiple(x as nat, n as nat),
                !found ==> forall|j: nat| 1 <= j < k ==> !(#[trigger] (x as nat % j) == 0 && x + j
                    > n),
            decreases n - k + if found {
                0int
            } else {
                1
            },
        {
            if x % k == 0 && x > n - k {
                found = true;
                assert((x as nat % k as nat) == 0 && x + k > n);
            } else {
                k += 1;
            }
        }
        let ghost before = out@;
        if found {
            out.push(x);
        } else {
            assert(!is_biggest_multiple(x as nat, n as nat));
        }
        assert forall|y: u64|
            1 <= y < x + 1 && is_biggest_multiple(y as nat, n as nat) implies out@.contains(y) by {
            if y < x {
                assert(before.contains(y));
                let idx = choose|idx: int| 0 <= idx < before.len() && before[idx] == y;
                assert(out@[idx] == y);
            } else {
                assert(out@[out@.len() - 1] == x);
            }
        }
        x += 1;
    }
    out
}

/// `y` is divisible by every number from 1 to `n`.
pub open spec fn divisible_up_to(y: nat, n: nat) -> bool {
    forall|d: nat| 1 <= d <= n ==> #[trigger] (y % d) == 0
}

/// The least positive number divisible by every number from 1 to `n`,
/// found by trying 1, 2, 3, ... in turn; nothing if it exceeds `u64::MAX`.
pub fn smallest_number_divisible_by_ns_from_1_to_n(n: u64) -> (r: Option<u64>)
    requires
        n < u64::MAX,
    ensures
        r matches Some(x) ==> x >= 1 && divisible_up_to(x as nat, n as nat) && (forall|y: u64|
            1 <= y < x ==> !#[trigger] divisible_up_to(y as nat, n as nat)),
        r is None ==> forall|y: u64| 1 <= y ==> !#[trigger] divisible_up_to(y as nat, n as nat),
{
    let ns = biggest_multiples_of_numbers_in_range_1_to_n(n);
    let mut x: u64 = 1;
    loop
        invariant
            1 <= x,
            n < u64::MAX,
            forall|i: int| 0 <= i < ns@.len() ==> 1 <= #[trigger] ns@[i] <= n && is_biggest_multiple(
                ns@[i] as nat,
                n as nat,
            ),
            forall|y: u64| 1 <= y <= n && is_biggest_multiple(y as nat, n as nat) ==> ns@.contains(y),
            forall|y: u64| 1 <= y < x ==> !#[trigger] divisible_up_to(y as nat, n as nat),
        decreases u64::MAX - x,
    {
        let ok = is_divisible_by_ns(x, &ns);
        if ok {
            proof {
                lemma_divisible_by_all(x as nat, n as nat, ns@);
            }
            return Some(x);
        }
        proof {
            let i = choose|i: int| 0 <= i < ns@.len() && x % ns@[i] != 0;
            assert(1 <= ns@[i] <= n && x % ns@[i] != 0);
            assert(!divisible_up_to(x as nat, n as nat)) by {
                assert((x as nat) % (ns@[i] as nat) != 0);
            }
        }
        if x == u64::MAX {
            return None;
        }
        x += 1;
    }
}

/// A multiple of every largest multiple below `n` (see
/// `is_biggest_multiple`) is a multiple of every number from 1 to `n`.
proof fn lemma_divisible_by_all(x: nat, n: nat, ns: Seq<u64>)
    requires
        forall|i: int| 0 <= i < ns.len() ==> x % (#[trigger] ns[i] as nat) == 0,
        forall|y: u64| 1 <= y <= n && is_biggest_multiple(y as nat, n as nat) ==> ns.contains(y),
        n < u64::MAX,
    ensures
        divisible_up_to(x, n),
{
    assert forall|d: nat| 1 <= d <= n implies #[trigger] (x % d) == 0 by {
        // the largest multiple of d up to n
        let m: nat = (n / d) * d;
        assert(m <= n && m + d > n && m >= d) by (nonlinear_arith)
            requires
                d >= 1,
                d <= n,
                m == (n / d) * d,
        ;
        assert(m % d == 0) by (nonlinear_arith)
            requires
                d >= 1,
                m == (n / d) * d,
        ;
        if d < n {
            assert(is_biggest_multiple(m, n as nat));
            assert(ns.contains(m as u64));
            let i = choose|i: int| 0 <= i < ns.len() && ns[i] == m as u64;
            assert(x % m == 0);
            lemma_mod_of_multiple(x, m, d);
        } else {
            // d == n: n is the largest multiple of 1 below n, or n is 1
            if n == 1 {
                assert(x % 1 == 0);
            } else {
                assert(is_biggest_multiple(n as nat, n as nat)) by {
                    assert((n as nat % 1) == 0);
                }
                assert(ns.contains(n as u64));
                let i = choose|i: int| 0 <= i < ns.len() && ns[i] == n as u64;
            }
        }
    }
}

pub proof fn lemma_mod_of_multiple(x: nat, m: nat, d: nat)
    requires
        d >= 1,
        m >= 1,
        x % m == 0,
        m % d == 0,
    ensures
        x % d == 0,
{
    vstd::arithmetic::div_mod::lemma_fundamental_div_mod(x as int, m as int);
    vstd::arithmetic::div_mod::lemma_fundamental_div_mod(m as int, d as int);
    let a = x / m;
    let b = m / d;
    assert(x == d * (b * a)) by (nonlinear_arith)
        requires
            x == m * a,
            m == d * b,
    ;
    vstd::arithmetic::div_mod::lemma_mod_multiples_basic((b * a) as int, d as int);
    assert((b * a) * d == d * (b * a)) by (nonlinear_arith);
}

pub proof fn lemma_factorial_mono(j: nat, k: nat)
    requires
        j <= k,
    ensures
        crate::bigint::factorial(j) <= crate::bigint::factorial(k),
    decreases k,
{
    if j < k {
        lemma_factorial_mono(j, (k - 1) as nat);
        crate::bigint::lemma_factorial_positive((k - 1) as nat);
        let f = crate::bigint::factorial((k - 1) as nat);
        assert(f <= k * f) by (nonlinear_arith)
            requires
                k >= 1,
        ;
    }
}

/// n! for `n` up to 20, the largest whose factorial fits in `u64`.
pub fn factorial(n: u64) -> (r: u64)
    requires
        n <= 20,
    ensures
        r == crate::bigint::factorial(n as nat),
    decreases n,
{
    if n == 0 || n == 1 {
        proof {
            reveal_with_fuel(crate::bigint::factorial, 2);
        }
        1
    } else {
        let f = factorial(n - 1);
        proof {
            reveal_with_fuel(crate::bigint::factorial, 21);
            assert(crate::bigint::factorial(20) == 2432902008176640000);
            lemma_factorial_mono(n as nat, 20);
        }
        n * f
    }
}

/// Product of the numbers from `lo` up to but excluding `hi`; 1 when there are none.
pub open spec fn range_product(lo: nat, hi: nat) -> nat
    decreases hi,
{
    if hi <= lo {
        1
    } else {
        range_product(lo, (hi - 1) as nat) * (hi - 1) as nat
    }
}

proof fn lemma_range_product_mono(lo: nat, i: nat, hi: nat)
    requires
        lo >= 1,
        i <= hi,
    ensures
        1 <= range_product(lo, i) <= range_product(lo, hi),
    decreases hi,
{
    if hi > lo {
        if i < hi {
            lemma_range_product_mono(lo, i, (hi - 1) as nat);
        }
        lemma_range_product_mono(lo, (hi - 1) as nat, (hi - 1) as nat);
        let p = range_product(lo, (hi - 1) as nat);
        assert(p <= p * (hi - 1) as nat) by (nonlinear_arith)
            requires
                p >= 1,
                hi - 1 >= 1,
        ;
        assert(1 <= p * (hi - 1) as nat) by (nonlinear_arith)
            requires
                p >= 1,
                hi - 1 >= 1,
        ;
    } else if i > 0 {
        assert(range_product(lo, i) == 1);
    }
}

/// Product of the range `lo..hi`.
fn range_product_of(lo: u64, hi: u64) -> (r: u64)
    requires
        lo >= 1,
        range_product(lo as nat, hi as nat) <= u64::MAX,
    ensures
        r == range_product(lo as nat, hi as nat),
{
    let mut p: u64 = 1;
    let mut i: u64 = lo;
    if hi <= lo {
        return 1;
    }
    while i < hi
        invariant
            lo >= 1,
            lo <= i <= hi,
            range_product(lo as nat, hi as nat) <= u64::MAX,
            p == range_product(lo as nat, i as nat),
        decreases hi - i,
    {
        proof {
            lemma_range_product_mono(lo as nat, (i + 1) as nat, hi as nat);
        }
        p = p * i;
        i += 1;
    }
    p
}

/// `(k + 2) * ... * (n - 1)` divided by `2 * ... * (k - 1)`, each product 1
/// when empty, the division rounded down.
pub fn combination(n: u64, k: u64) -> (r: u64)
    requires
        k + 2 <= u64::MAX,
        range_product((k + 2) as nat, n as nat) <= u64::MAX,
        range_product(2, k as nat) <= u64::MAX,
    ensures
        r == range_product((k + 2) as nat, n as nat) / range_product(2, k as nat),
{
    let num = range_product_of(k + 2, n);
    let denom = range_product_of(2, k);
    proof {
        lemma_range_product_mono(2, k as nat, k as nat);
    }
    num / denom
}

/// The triangular numbers 1, 3, 6, 10, ...: the n-th is 1 + 2 + ... + n.
pub struct Triangular {
    next: u64,
    next_index: usize,
}

impl View for Triangular {
    /// The next number to give, and the index of the one after it.
    type V = (nat, nat);

    closed spec fn view(&self) -> (nat, nat) {
        (self.next as nat, self.next_index as nat)
    }
}

/// 1 + 2 + ... + n.
pub open spec fn triangle(n: nat) -> nat
    decreases n,
{
    if n == 0 {
        0
    } else {
        n + triangle((n - 1) as nat)
    }
}

impl Triangular {
    #[verifier::type_invariant]
    spec fn in_sequence(&self) -> bool {
        self.next_index >= 2 && self.next == triangle((self.next_index - 1) as nat)
    }

    /// Starts at the first triangular number, 1.
    pub fn new() -> (r: Triangular)
        ensures
            r@ == (1nat, 2nat),
    {
        proof {
            reveal_with_fuel(triangle, 2);
        }
        Triangular { next: 1, next_index: 2 }
    }

    /// The next triangular number, moving on by one; nothing once the one after
    /// it does not fit.
    pub fn next(&mut self) -> (r: Option<u64>)
        ensures
            r matches Some(x) ==> x == old(self)@.0 && final(self)@ == (
                old(self)@.0 + old(self)@.1,
                old(self)@.1 + 1,
            ),
            r is None ==> final(self)@ == old(self)@,
            old(self)@.0 == triangle((old(self)@.1 - 1) as nat),
            old(self)@.0 + old(self)@.1 <= u64::MAX && old(self)@.1 + 1 <= usize::MAX ==> r
                is Some,
    {
        proof {
            use_type_invariant(&*self);
        }
        let next = self.next;
        if self.next_index == usize::MAX {
            return None;
        }
        match self.next.checked_add(self.next_index as u64) {
            Some(following) => {
                proof {
                    assert(triangle(self.next_index as nat) == self.next_index as nat + triangle(
                        (self.next_index - 1) as nat,
                    ));
                }
                *self = Triangular { next: following, next_index: self.next_index + 1 };
                Some(next)
            },
            None => None,
        }
    }
}

/// Iterates over the divisors of a number, from the largest down to 1.
pub struct Divisors {
    n: u64,
    next_divisor: u64,
}

impl View for Divisors {
    /// The number and the next divisor to give (0 when done).
    type V = (nat, nat);

    closed spec fn view(&self) -> (nat, nat) {
        (self.n as nat, self.next_divisor as nat)
    }
}

/// `d` is a positive divisor of `n`.
pub open spec fn divides(d: nat, n: nat) -> bool {
    d >= 1 && n % d == 0
}

impl Divisors {
    #[verifier::type_invariant]
    spec fn on_a_divisor(&self) -> bool {
        self.next_divisor == 0 || self.n % self.next_divisor == 0
    }

    /// The next divisor, going down; nothing after 1.
    pub fn next(&mut self) -> (r: Option<u64>)
        ensures
            final(self)@.0 == old(self)@.0,
            old(self)@.1 == 0 ==> r is None && final(self)@ == old(self)@,
            old(self)@.1 > 0 ==> r == Some(old(self)@.1 as u64) && divides(old(self)@.1, old(self)@.0)
                && final(self)@.1 < old(self)@.1 && (final(self)@.1 == 0 || divides(
                final(self)@.1,
                final(self)@.0,
            )) && forall|d: nat|
                final(self)@.1 < d < old(self)@.1 ==> !#[trigger] divides(d, old(self)@.0),
    {
        proof {
            use_type_invariant(&*self);
        }
        let factor = self.next_divisor;
        let mut candidate = self.next_divisor;
        if factor > 0 {
            candidate = candidate - 1;
        }
        while candidate > 0 && self.n % candidate != 0
            invariant
                candidate <= factor,
                factor > 0 ==> candidate < factor,
                forall|d: nat| candidate < d < factor ==> !#[trigger] divides(d, self.n as nat),
            decreases candidate,
        {
            candidate = candidate - 1;
        }
        self.next_divisor = candidate;
        if factor == 0 {
            None
        } else {
            Some(factor)
        }
    }

    /// All the divisors still to come, from the largest down.
    pub fn collect(self) -> (r: Vec<u64>)
        ensures
            forall|i: int, j: int| 0 <= i < j < r@.len() ==> r@[i] > r@[j],
            forall|i: int|
                0 <= i < r@.len() ==> #[trigger] r@[i] <= self@.1 && divides(
                    r@[i] as nat,
                    self@.0,
                ),
            forall|d: u64| d <= self@.1 && #[trigger] divides(d as nat, self@.0) ==> r@.contains(d),
    {
        let mut it = self;
        let mut out: Vec<u64> = Vec::new();
        let ghost start = self@.1;
        proof {
            use_type_invariant(&it);
        }
        loop
            invariant
                it@.0 == self@.0,
                it@.1 <= start == self@.1,
                it@.1 == 0 || divides(it@.1, it@.0),
                forall|i: int, j: int| 0 <= i < j < out@.len() ==> out@[i] > out@[j],
                forall|i: int|
                    0 <= i < out@.len() ==> #[trigger] out@[i] <= start && out@[i] > it@.1
                        && divides(out@[i] as nat, self@.0),
                forall|d: u64|
                    it@.1 < d <= start && #[trigger] divides(d as nat, self@.0) ==> out@.contains(
                        d,
                    ),
            decreases it@.1,
        {
            let ghost before = out@;
            let ghost f = it@.1;
            match it.next() {
                Some(d) => {
                    out.push(d);
                    assert forall|e: u64|
                        it@.1 < e <= start && #[trigger] divides(
                            e as nat,
                            self@.0,
                        ) implies out@.contains(e) by {
                        if e > f {
                            let i = choose|i: int| 0 <= i < before.len() && before[i] == e;
                            assert(out@[i] == e);
                        } else if e == f {
                            assert(out@[out@.len() - 1] == e);
                        } else {
                            assert(!divides(e as nat, self@.0));
                        }
                    }
                },
                None => {
                    return out;
                },
            }
        }
    }
}

/// The divisors of `n`, from `n` itself down to 1; none for 0.
pub fn divisors(n: u64) -> (r: Divisors)
    ensures
        r@ == (n as nat, n as nat),
{
    proof {
        if n > 0 {
            vstd::arithmetic::div_mod::lemma_mod_self_0(n as int);
        }
    }
    Divisors { n: n, next_divisor: n }
}

/// `(a, b, c)` is a Pythagorean triple with `a < b < c`.
pub open spec fn is_triple(a: nat, b: nat, c: nat) -> bool {
    2 <= a < b < c && a * a + b * b == c * c
}

/// `(c, b, a)` comes after `(c0, b0, a0)` in lexicographic order.
pub open spec fn comes_after(c: nat, b: nat, a: nat, c0: nat, b0: nat, a0: nat) -> bool {
    c > c0 || (c == c0 && b > b0) || (c == c0 && b == b0 && a > a0)
}

/// The largest hypotenuse searched: its square still fits in `u32`.
pub const MAX_HYPOTENUSE: u32 = 65535;

/// Enumerates Pythagorean triples `(a, b, c)` with `a < b < c`, ordered by
/// `c`, then `b`, then `a`.
pub struct PythagoreanTriplets {
    a: u32,
    b: u32,
    c: u32,
}

impl View for PythagoreanTriplets {
    /// The last triple given, as `(a, b, c)`; `(1, 1, 1)` before the first.
    type V = (nat, nat, nat);

    closed spec fn view(&self) -> (nat, nat, nat) {
        (self.a as nat, self.b as nat, self.c as nat)
    }
}

impl PythagoreanTriplets {
    #[verifier::type_invariant]
    spec fn at_a_triple(&self) -> bool {
        (self.a == 1 && self.b == 1 && self.c == 1) || (is_triple(
            self.a as nat,
            self.b as nat,
            self.c as nat,
        ) && self.c <= MAX_HYPOTENUSE)
    }

    /// Starts before the first triple.
    pub fn new() -> (r: PythagoreanTriplets)
        ensures
            r@ == (1nat, 1nat, 1nat),
    {
        PythagoreanTriplets { a: 1, b: 1, c: 1 }
    }

    /// The next triple in the order; nothing when its hypotenuse would exceed
    /// `MAX_HYPOTENUSE`.
    pub fn next(&mut self) -> (r: Option<(u32, u32, u32)>)
        ensures
            r matches Some(t) ==> {
                &&& is_triple(t.0 as nat, t.1 as nat, t.2 as nat)
                &&& t.2 <= MAX_HYPOTENUSE
                &&& comes_after(t.2 as nat, t.1 as nat, t.0 as nat, old(self)@.2, old(self)@.1, old(self)@.0)
                &&& forall|a: nat, b: nat, c: nat|
                    #[trigger] is_triple(a, b, c) && comes_after(c, b, a, old(self)@.2, old(self)@.1, old(self)@.0)
                        ==> (a == t.0 && b == t.1 && c == t.2) || comes_after(c, b, a, t.2 as nat, t.1 as nat, t.0 as nat)
                &&& final(self)@ == (t.0 as nat, t.1 as nat, t.2 as nat)
            },
            r is None ==> final(self)@ == old(self)@ && forall|a: nat, b: nat, c: nat|
                #[trigger] is_triple(a, b, c) && comes_after(c, b, a, old(self)@.2, old(self)@.1, old(self)@.0)
                    ==> c > MAX_HYPOTENUSE,
    {
        proof {
            use_type_invariant(&*self);
        }
        let ghost (a0, b0, c0) = (self.a as nat, self.b as nat, self.c as nat);
        let mut sa = self.a;
        let mut sb = self.b;
        let mut c = self.c;
        while c <= MAX_HYPOTENUSE
            invariant
                c0 <= c <= MAX_HYPOTENUSE + 1,
                sa >= 1,
                self@ == (a0, b0, c0),
                old(self)@ == (a0, b0, c0),
                (a0 == 1 && b0 == 1 && c0 == 1) || (is_triple(a0, b0, c0) && c0 <= MAX_HYPOTENUSE),
                c == c0 ==> sb == b0 && sa == a0,
                c > c0 ==> sb == 1 && sa == 1,
                forall|a: nat, b: nat, cc: nat|
                    #[trigger] is_triple(a, b, cc) && comes_after(cc, b, a, c0, b0, a0) ==> cc >= c,
            decreases MAX_HYPOTENUSE + 1 - c,
        {
            let mut b = sb;
            while b < c
                invariant
                    c0 <= c <= MAX_HYPOTENUSE,
                    sa >= 1,
                    self@ == (a0, b0, c0),
                    old(self)@ == (a0, b0, c0),
                    (a0 == 1 && b0 == 1 && c0 == 1) || (is_triple(a0, b0, c0) && c0 <= MAX_HYPOTENUSE),
                    c == c0 ==> sb == b0,
                    c > c0 ==> sb == 1,
                    sb <= b,
                    b == sb ==> (c == c0 ==> sa == a0) && (c > c0 ==> sa == 1),
                    b > sb ==> sa == 1,
                    forall|a: nat, bb: nat, cc: nat|
                        #[trigger] is_triple(a, bb, cc) && comes_after(cc, bb, a, c0, b0, a0) ==> cc > c
                            || (cc == c && bb >= b),
                decreases c - b,
            {
                let mut a = sa + 1;
                while a < b
                    invariant
                        c0 <= c <= MAX_HYPOTENUSE,
                        sa >= 1,
                        self@ == (a0, b0, c0),
                        old(self)@ == (a0, b0, c0),
                        sb <= b < c,
                        sa + 1 <= a,
                        b == sb ==> (c == c0 ==> sa == a0) && (c > c0 ==> sa == 1),
                        b > sb ==> sa == 1,
                        c == c0 ==> sb == b0,
                        c > c0 ==> sb == 1,
                        forall|aa: nat, bb: nat, cc: nat|
                            #[trigger] is_triple(aa, bb, cc) && comes_after(cc, bb, aa, c0, b0, a0) ==> cc > c
                                || (cc == c && bb > b) || (cc == c && bb == b && aa >= a),
                    decreases b - a,
                {
                    assert((a as nat) * (a as nat) <= 65535 * 65535 && (b as nat) * (b as nat) <= 65535
                        * 65535 && (c as nat) * (c as nat) <= 65535 * 65535) by (nonlinear_arith)
                        requires
                            a < b,
                            b < c,
                            c <= 65535,
                    ;
                    let a2 = (a as u64) * (a as u64);
                    let b2 = (b as u64) * (b as u64);
                    let c2 = (c as u64) * (c as u64);
                    if a2 + b2 == c2 {
                        proof {
                            assert(is_triple(a as nat, b as nat, c as nat));
                        }
                        *self = PythagoreanTriplets { a, b, c };
                        return Some((a, b, c));
                    }
                    a += 1;
                }
                sa = 1;
                b += 1;
            }
            sb = 1;
            sa = 1;
            c += 1;
        }
        None
    }
}

/// The largest number of times `q` occurs in any of the sequences.
pub open spec fn max_occurrences(fs: Seq<Seq<u64>>, q: u64) -> nat
    decreases fs.len(),
{
    if fs.len() == 0 {
        0
    } else {
        let a = max_occurrences(fs.drop_last(), q);
        let b = occurrences(fs.last(), q);
        if a >= b {
            a
        } else {
            b
        }
    }
}

/// The entries are ordered by strictly increasing key.
pub open spec fn keys_increasing(l: Seq<(u64, u32)>) -> bool {
    forall|i: int, j: int| 0 <= i < j < l.len() ==> l[i].0 < l[j].0
}

/// The value paired with `q`, or 0 when no entry has the key `q`.
pub open spec fn exponent_of(l: Seq<(u64, u32)>, q: u64) -> nat {
    if exists|i: int| 0 <= i < l.len() && l[i].0 == q {
        l[choose|i: int| 0 <= i < l.len() && l[i].0 == q].1 as nat
    } else {
        0
    }
}

/// The entries pair each number that occurs in some sequence of `fs` with the
/// largest number of times it occurs in one of them, and hold nothing else.
pub open spec fn lists_max_exponents(l: Seq<(u64, u32)>, fs: Seq<Seq<u64>>) -> bool {
    &&& forall|i: int| 0 <= i < l.len() ==> #[trigger] l[i].1 > 0
    &&& forall|q: u64| #[trigger] exponent_of(l, q) == max_occurrences(fs, q)
}

proof fn lemma_exponent_at(l: Seq<(u64, u32)>, i: int)
    requires
        keys_increasing(l),
        0 <= i < l.len(),
    ensures
        exponent_of(l, l[i].0) == l[i].1,
{
    let q = l[i].0;
    assert(exists|k: int| 0 <= k < l.len() && l[k].0 == q);
    let k = choose|k: int| 0 <= k < l.len() && l[k].0 == q;
    if k < i {
        assert(l[k].0 < l[i].0);
    } else if k > i {
        assert(l[i].0 < l[k].0);
    }
}

proof fn lemma_exponent_absent(l: Seq<(u64, u32)>, q: u64)
    requires
        forall|i: int| 0 <= i < l.len() ==> #[trigger] l[i].0 != q,
    ensures
        exponent_of(l, q) == 0,
{
}

/// `b` to the power `e`.
pub open spec fn power(b: nat, e: nat) -> nat
    decreases e,
{
    if e == 0 {
        1
    } else {
        power(b, (e - 1) as nat) * b
    }
}

/// Product of each key to the power of its value.
pub open spec fn entries_product(l: Seq<(u64, u32)>) -> nat
    decreases l.len(),
{
    if l.len() == 0 {
        1
    } else {
        entries_product(l.drop_last()) * power(l.last().0 as nat, l.last().1 as nat)
    }
}

proof fn lemma_power_positive(b: nat, e: nat)
    requires
        b >= 1,
    ensures
        power(b, e) >= 1,
    decreases e,
{
    if e > 0 {
        lemma_power_positive(b, (e - 1) as nat);
        let x = power(b, (e - 1) as nat);
        assert(x * b >= 1) by (nonlinear_arith)
            requires
                x >= 1,
                b >= 1,
        ;
    }
}

/// `b` to the power `e`; nothing when it exceeds `u64::MAX`.
fn checked_power(b: u64, e: u32) -> (r: Option<u64>)
    requires
        b >= 1,
    ensures
        r matches Some(v) ==> v == power(b as nat, e as nat),
        r is None ==> power(b as nat, e as nat) > u64::MAX,
{
    let mut acc: u64 = 1;
    let mut i: u32 = 0;
    while i < e
        invariant
            i <= e,
            b >= 1,
            acc == power(b as nat, i as nat),
        decreases e - i,
    {
        match acc.checked_mul(b) {
            Some(v) => {
                acc = v;
            },
            None => {
                proof {
                    lemma_power_grows(b as nat, (i + 1) as nat, e as nat);
                }
                return None;
            },
        }
        i += 1;
    }
    Some(acc)
}

proof fn lemma_power_grows(b: nat, i: nat, e: nat)
    requires
        b >= 1,
        i <= e,
    ensures
        power(b, i) <= power(b, e),
    decreases e,
{
    if i < e {
        lemma_power_grows(b, i, (e - 1) as nat);
        lemma_power_positive(b, (e - 1) as nat);
        let x = power(b, (e - 1) as nat);
        assert(x <= x * b) by (nonlinear_arith)
            requires
                b >= 1,
                x >= 1,
        ;
    }
}

proof fn lemma_entries_product_prefix(l: Seq<(u64, u32)>, i: int)
    requires
        0 <= i <= l.len(),
        forall|k: int| 0 <= k < l.len() ==> #[trigger] l[k].0 >= 1,
    ensures
        1 <= entries_product(l.subrange(0, i)) <= entries_product(l),
    decreases l.len(),
{
    if l.len() > 0 {
        let m = l.drop_last();
        assert forall|k: int| 0 <= k < m.len() implies #[trigger] m[k].0 >= 1 by {
            assert(m[k] == l[k]);
        }
        assert(l.last() == l[l.len() - 1]);
        lemma_power_positive(l.last().0 as nat, l.last().1 as nat);
        let p = power(l.last().0 as nat, l.last().1 as nat);
        if i < l.len() {
            lemma_entries_product_prefix(m, i);
            assert(m.subrange(0, i) =~= l.subrange(0, i));
        } else {
            assert(l.subrange(0, i) =~= l);
        }
        lemma_entries_product_prefix(m, m.len() as int);
        assert(m.subrange(0, m.len() as int) =~= m);
        let x = entries_product(m);
        assert(x <= x * p && 1 <= x * p) by (nonlinear_arith)
            requires
                x >= 1,
                p >= 1,
        ;
    } else {
        assert(l.subrange(0, i) =~= l);
    }
}

/// Records that `p` occurs `count` times in the newest sequence: its
/// entry becomes the larger of the two counts, or a new entry in key order.
#[verifier::rlimit(30)]
fn raise_exponent(maxes: &mut Vec<(u64, u32)>, p: u64, count: u32)
    requires
        keys_increasing(old(maxes)@),
        forall|i: int|
            0 <= i < old(maxes)@.len() ==> #[trigger] old(maxes)@[i].1 > 0 && old(maxes)@[i].0 >= 1,
        count > 0,
        p >= 1,
    ensures
        keys_increasing(final(maxes)@),
        forall|i: int|
            0 <= i < final(maxes)@.len() ==> #[trigger] final(maxes)@[i].1 > 0 && final(maxes)@[i].0
                >= 1,
        forall|q: u64|
            #[trigger] exponent_of(final(maxes)@, q) == if q == p {
                if exponent_of(old(maxes)@, p) >= count {
                    exponent_of(old(maxes)@, p)
                } else {
                    count as nat
                }
            } else {
                exponent_of(old(maxes)@, q)
            },
{
    let ghost before = maxes@;
    assert(before == old(maxes)@);
    let mut i: usize = 0;
    while i < maxes.len() && maxes[i].0 < p
        invariant
            i <= maxes@.len(),
            maxes@ == before,
            forall|k: int| 0 <= k < i ==> #[trigger] maxes@[k].0 < p,
        decreases maxes@.len() - i,
    {
        i += 1;
    }
    if i < maxes.len() && maxes[i].0 == p {
        proof {
            lemma_exponent_at(before, i as int);
        }
        if count > maxes[i].1 {
            maxes.set(i, (p, count));
        }
        proof {
            assert(keys_increasing(maxes@)) by {
                assert forall|a: int, b: int| 0 <= a < b < maxes@.len() implies maxes@[a].0
                    < maxes@[b].0 by {
                    assert(maxes@[a].0 == before[a].0 && maxes@[b].0 == before[b].0);
                }
            }
            lemma_exponent_at(maxes@, i as int);
            if count > before[i as int].1 {
                assert(maxes@ == before.update(i as int, (p, count)));
            } else {
                assert(maxes@ == before);
            }
            assert forall|k: int| 0 <= k < maxes@.len() implies #[trigger] maxes@[k].1 > 0
                && maxes@[k].0 >= 1 by {
                if k != i {
                    assert(maxes@[k] == before[k]);
                    assert(old(maxes)@[k].1 > 0 && old(maxes)@[k].0 >= 1);
                } else if count > before[i as int].1 {
                    assert(maxes@[k] == (p, count));
                } else {
                    assert(maxes@[k] == before[k]);
                }
            }
            assert forall|q: u64| q != p implies #[trigger] exponent_of(maxes@, q) == exponent_of(
                before,
                q,
            ) by {
                if exists|k: int| 0 <= k < before.len() && before[k].0 == q {
                    let k = choose|k: int| 0 <= k < before.len() && before[k].0 == q;
                    assert(k != i);
                    assert(maxes@[k] == before[k]);
                    lemma_exponent_at(before, k);
                    lemma_exponent_at(maxes@, k);
                } else {
                    assert forall|k: int| 0 <= k < maxes@.len() implies #[trigger] maxes@[k].0
                        != q by {
                        assert(maxes@[k].0 == before[k].0);
                    }
                }
            }
        }
    } else {
        proof {
            assert forall|j: int| 0 <= j < before.len() implies #[trigger] before[j].0 != p by {
                if j < i {
                    assert(before[j].0 < p);
                } else {
                    if j > i {
                        assert(before[i as int].0 < before[j].0);
                    }
                    assert(before[i as int].0 > p);
                }
            }
            lemma_exponent_absent(before, p);
        }
        maxes.insert(i, (p, count));
        proof {
            assert(maxes@ == before.insert(i as int, (p, count)));
            assert(keys_increasing(maxes@)) by {
                assert forall|a: int, b: int| 0 <= a < b < maxes@.len() implies maxes@[a].0
                    < maxes@[b].0 by {
                    if b < i {
                        assert(maxes@[a] == before[a] && maxes@[b] == before[b]);
                    } else if b == i {
                        assert(maxes@[a] == before[a]);
                    } else if a < i {
                        assert(maxes@[a] == before[a] && maxes@[b] == before[b - 1]);
                        assert(before[i as int].0 > p);
                        if b - 1 > i {
                            assert(before[i as int].0 < before[b - 1].0);
                        }
                    } else if a == i {
                        assert(maxes@[b] == before[b - 1]);
                        assert(before[i as int].0 > p);
                        if b - 1 > i {
                            assert(before[i as int].0 < before[b - 1].0);
                        }
                    } else {
                        assert(maxes@[a] == before[a - 1] && maxes@[b] == before[b - 1]);
                    }
                }
            }
            assert forall|k: int| 0 <= k < maxes@.len() implies #[trigger] maxes@[k].1 > 0
                && maxes@[k].0 >= 1 by {
                if k < i {
                    assert(maxes@[k] == before[k]);
                    assert(old(maxes)@[k].1 > 0 && old(maxes)@[k].0 >= 1);
                } else if k > i {
                    assert(maxes@[k] == before[k - 1]);
                    assert(old(maxes)@[k - 1].1 > 0 && old(maxes)@[k - 1].0 >= 1);
                } else {
                    assert(maxes@[k] == (p, count));
                }
            }
            lemma_exponent_at(maxes@, i as int);
            assert forall|q: u64| q != p implies #[trigger] exponent_of(maxes@, q) == exponent_of(
                before,
                q,
            ) by {
                if exists|k: int| 0 <= k < before.len() && before[k].0 == q {
                    let k = choose|k: int| 0 <= k < before.len() && before[k].0 == q;
                    lemma_exponent_at(before, k);
                    if k < i {
                        assert(maxes@[k] == before[k]);
                        lemma_exponent_at(maxes@, k);
                    } else {
                        assert(maxes@[k + 1] == before[k]);
                        lemma_exponent_at(maxes@, k + 1);
                    }
                } else {
                    assert forall|k: int| 0 <= k < maxes@.len() implies #[trigger] maxes@[k].0
                        != q by {
                        if k < i {
                            assert(maxes@[k] == before[k]);
                        } else if k > i {
                            assert(maxes@[k] == before[k - 1]);
                        }
                    }
                }
            }
        }
    }
}

/// `fs[i]` is the factorization of `ns[i]`, for every `i`.
pub open spec fn factorizations(fs: Seq<Seq<u64>>, ns: Seq<u64>) -> bool {
    &&& fs.len() == ns.len()
    &&& forall|i: int| 0 <= i < ns.len() ==> #[trigger] is_factorization(fs[i], ns[i] as nat)
}

/// `l` lists, in increasing order, every prime of the factorizations `fs` of
/// `ns` with the largest number of times it divides one of them.
pub open spec fn max_exponents(fs: Seq<Seq<u64>>, l: Seq<(u64, u32)>, ns: Seq<u64>) -> bool {
    &&& factorizations(fs, ns)
    &&& keys_increasing(l)
    &&& lists_max_exponents(l, fs)
}

/// The least common multiple of the numbers: each prime that divides one of
/// them, to the largest power in which it divides one of them, multiplied
/// together; 1 for no numbers, and 0 and 1 add no prime. Nothing when it
/// exceeds `u64::MAX`.
pub fn least_common_multiple(ns: Vec<u64>, ps: &mut CachedPrimes) -> (r: Option<u64>)
    ensures
        first_primes(final(ps)@),
        exists|fs: Seq<Seq<u64>>, l: Seq<(u64, u32)>|
            #[trigger] max_exponents(fs, l, ns@) && (r matches Some(v) ==> v == entries_product(l))
                && (r is None ==> entries_product(l) > u64::MAX),
{
    let mut maxes: Vec<(u64, u32)> = Vec::new();
    let ghost mut fs: Seq<Seq<u64>> = Seq::empty();
    let mut k: usize = 0;
    let _cached = ps.len();
    proof {
        assert forall|q: u64| #[trigger] exponent_of(maxes@, q) == max_occurrences(fs, q) by {}
    }
    while k < ns.len()
        invariant
            k <= ns@.len(),
            fs.len() == k,
            forall|i: int| 0 <= i < k ==> #[trigger] is_factorization(fs[i], ns@[i] as nat),
            keys_increasing(maxes@),
            forall|i: int| 0 <= i < maxes@.len() ==> #[trigger] maxes@[i].1 > 0 && maxes@[i].0 >= 1,
            forall|q: u64| #[trigger] exponent_of(maxes@, q) == max_occurrences(fs, q),
            first_primes(ps@),
        decreases ns@.len() - k,
    {
        let f = factorize(ns[k], ps);
        let len = f.len();
        proof {
            lemma_factorization_short(f@, ns@[k as int] as nat);
            assert(f@.subrange(0, 0) =~= Seq::<u64>::empty());
        }
        let mut i: usize = 0;
        while i < len
            invariant
                len == f@.len() < 64,
                i <= len,
                is_factorization(f@, ns@[k as int] as nat),
                i > 0 ==> (i == len || f@[i as int] != f@[i - 1]),
                keys_increasing(maxes@),
                forall|t: int| 0 <= t < maxes@.len() ==> #[trigger] maxes@[t].1 > 0 && maxes@[t].0 >= 1,
                forall|q: u64|
                    #[trigger] exponent_of(maxes@, q) == {
                        let a = max_occurrences(fs, q);
                        let b = occurrences(f@.subrange(0, i as int), q);
                        if a >= b {
                            a
                        } else {
                            b
                        }
                    },
            decreases len - i,
        {
            let p = f[i];
            let mut j = i;
            let ghost g = f@.subrange(0, i as int);
            proof {
                assert forall|t: int| 0 <= t < g.len() implies #[trigger] g[t] != p by {
                    assert(g[t] == f@[t]);
                    if i > 0 {
                        assert(f@[t] <= f@[i - 1]);
                        assert(f@[i - 1] <= f@[i as int]);
                    }
                }
                lemma_occurrences_absent(g, p);
            }
            while j < len && f[j] == p
                invariant
                    i <= j <= len == f@.len(),
                    p == f@[i as int],
                    g == f@.subrange(0, i as int),
                    forall|t: int| i <= t < j ==> f@[t] == p,
                    occurrences(f@.subrange(0, j as int), p) == occurrences(g, p) + (j - i),
                    forall|q: u64| q != p ==> #[trigger] occurrences(f@.subrange(0, j as int), q)
                        == occurrences(g, q),
                decreases len - j,
            {
                proof {
                    let s1 = f@.subrange(0, j + 1);
                    assert(s1.drop_last() =~= f@.subrange(0, j as int));
                    assert(s1.last() == p);
                    assert forall|q: u64| q != p implies #[trigger] occurrences(s1, q)
                        == occurrences(g, q) by {
                        assert(occurrences(s1, q) == occurrences(f@.subrange(0, j as int), q));
                    }
                }
                j += 1;
            }
            proof {
                assert(f@[i as int] >= 2);
                if j < len {
                    assert(f@[j as int] != f@[j - 1]);
                }
            }
            raise_exponent(&mut maxes, p, (j - i) as u32);
            i = j;
        }
        proof {
            assert(f@.subrange(0, len as int) =~= f@);
            let fs2 = fs.push(f@);
            assert(fs2.drop_last() =~= fs);
            assert forall|t: int| 0 <= t < k + 1 implies #[trigger] is_factorization(
                fs2[t],
                ns@[t] as nat,
            ) by {
                if t < k {
                    assert(fs2[t] == fs[t]);
                }
            }
            assert forall|q: u64| #[trigger] exponent_of(maxes@, q) == max_occurrences(fs2, q) by {}
            fs = fs2;
        }
        k += 1;
    }
    proof {
        assert(maxes@.subrange(0, 0) =~= Seq::<(u64, u32)>::empty());
        assert(max_exponents(fs, maxes@, ns@));
        assert forall|t: int| 0 <= t < maxes@.len() implies #[trigger] maxes@[t].0 >= 1 by {
            assert(maxes@[t].1 > 0);
        }
    }
    let mut result: u64 = 1;
    let mut idx: usize = 0;
    while idx < maxes.len()
        invariant
            idx <= maxes@.len(),
            forall|t: int| 0 <= t < maxes@.len() ==> #[trigger] maxes@[t].0 >= 1,
            max_exponents(fs, maxes@, ns@),
            first_primes(ps@),
            result == entries_product(maxes@.subrange(0, idx as int)),
        decreases maxes@.len() - idx,
    {
        let (p, e) = maxes[idx];
        let ghost next = maxes@.subrange(0, idx + 1);
        proof {
            assert(next.drop_last() =~= maxes@.subrange(0, idx as int));
            assert(next.last() == (p, e));
            crate::ints::lemma_entries_product_prefix(maxes@, idx + 1);
            crate::ints::lemma_entries_product_prefix(maxes@, idx as int);
        }
        match checked_power(p, e) {
            Some(pw) => {
                match result.checked_mul(pw) {
                    Some(v) => {
                        result = v;
                    },
                    None => {
                        proof {
                            assert(entries_product(next) == result * pw);
                            assert(max_exponents(fs, maxes@, ns@));
                        }
                        return None;
                    },
                }
            },
            None => {
                proof {
                    assert(result * power(p as nat, e as nat) >= power(p as nat, e as nat))
                        by (nonlinear_arith)
                        requires
                            result >= 1,
                    ;
                    assert(entries_product(next) == result * power(p as nat, e as nat));
                    assert(max_exponents(fs, maxes@, ns@));
                }
                return None;
            },
        }
        idx += 1;
    }
    proof {
        assert(maxes@.subrange(0, maxes@.len() as int) =~= maxes@);
    }
    Some(result)
}

/// The numbers 1 to `n`.
pub open spec fn one_to(n: nat) -> Seq<u64> {
    Seq::new(n, |i: int| (i + 1) as u64)
}

/// The least common multiple of the numbers from 1 to `n`, from their prime
/// factors (see `least_common_multiple`).
pub fn smallest_number_divisible_by_ns_from_1_to_n__fast(n: u64, ps: &mut CachedPrimes) -> (r: Option<u64>)
    requires
        n < u64::MAX,
    ensures
        first_primes(final(ps)@),
        exists|fs: Seq<Seq<u64>>, l: Seq<(u64, u32)>|
            #[trigger] max_exponents(fs, l, one_to(n as nat)) && (r matches Some(v) ==> v
                == entries_product(l)) && (r is None ==> entries_product(l) > u64::MAX),
{
    let mut ns: Vec<u64> = Vec::new();
    let mut x: u64 = 1;
    while x < n + 1
        invariant
            1 <= x <= n + 1,
            n < u64::MAX,
            ns@ == one_to((x - 1) as nat),
        decreases n + 1 - x,
    {
        ns.push(x);
        x += 1;
        assert(ns@ =~= one_to((x - 1) as nat));
    }
    least_common_multiple(ns, ps)
}

/// The number of divisors of `n`: the product, over the prime factors, of
/// one more than the number of times each divides `n`; 1 for 0 and 1.
/// Nothing if that number exceeds `u32::MAX`.
pub fn divisor_count(n: u64, ps: &mut CachedPrimes) -> (r: Option<u32>)
    ensures
        first_primes(final(ps)@),
        exists|f: Seq<u64>|
            #[trigger] is_factorization(f, n as nat) && (r matches Some(c) ==> c == count_product(
                f,
                n as nat,
            )) && (r is None ==> count_product(f, n as nat) > u32::MAX),
{
    let f = factorize(n, ps);
    let len = f.len();
    let mut result: u64 = 1;
    let mut i: usize = 0;
    proof {
        assert(f@.subrange(0, 0) =~= Seq::<u64>::empty());
        lemma_factorization_short(f@, n as nat);
        assert(power_of_two(63) == 9223372036854775808) by {
            reveal_with_fuel(power_of_two, 64);
        }
    }
    while i < len
        invariant
            len == f@.len() < 64,
            i <= len,
            is_factorization(f@, n as nat),
            power_of_two(63) == 9223372036854775808,
            i > 0 ==> (i == len || f@[i as int] != f@[i - 1]),
            result == count_product(f@.subrange(0, i as int), if i == 0 {
                0
            } else {
                f@[i - 1] as nat
            }),
            result <= power_of_two(i as nat),
        decreases len - i,
    {
        let p = f[i];
        let mut j = i;
        let ghost g = f@.subrange(0, i as int);
        proof {
            assert forall|k: int| 0 <= k < g.len() implies #[trigger] g[k] != p by {
                assert(g[k] == f@[k]);
                if i > 0 {
                    assert(f@[k] <= f@[i - 1]);
                    assert(f@[i - 1] <= f@[i as int]);
                }
            }
            lemma_occurrences_absent(g, p);
        }
        while j < len && f[j] == p
            invariant
                i <= j <= len == f@.len(),
                p == f@[i as int],
                g == f@.subrange(0, i as int),
                forall|k: int| i <= k < j ==> f@[k] == p,
                occurrences(f@.subrange(0, j as int), p) == occurrences(g, p) + (j - i),
                forall|q: u64| q != p ==> #[trigger] occurrences(f@.subrange(0, j as int), q)
                    == occurrences(g, q),
            decreases len - j,
        {
            proof {
                let s1 = f@.subrange(0, j + 1);
                assert(s1.drop_last() =~= f@.subrange(0, j as int));
                assert(s1.last() == p);
                assert forall|q: u64| q != p implies #[trigger] occurrences(s1, q) == occurrences(
                    g,
                    q,
                ) by {
                    assert(occurrences(s1, q) == occurrences(f@.subrange(0, j as int), q));
                }
            }
            j += 1;
        }
        let run = (j - i) as u64;
        let ghost g2 = f@.subrange(0, j as int);
        proof {
            assert(j > i);
            let low: nat = if i == 0 {
                0
            } else {
                f@[i - 1] as nat
            };
            assert(low < p) by {
                if i > 0 {
                    assert(f@[i - 1] <= f@[i as int]);
                }
            }
            assert forall|q: nat| low < q <= (p - 1) as nat implies #[trigger] occurrences(
                g,
                q as u64,
            ) == 0 by {
                assert forall|k: int| 0 <= k < g.len() implies #[trigger] g[k] != q as u64 by {
                    assert(g[k] == f@[k]);
                    if i > 0 {
                        assert(f@[k] <= f@[i - 1]);
                    }
                }
                lemma_occurrences_absent(g, q as u64);
            }
            lemma_count_product_gap(g, low, (p - 1) as nat);
            assert forall|q: nat| 1 <= q <= (p - 1) as nat implies #[trigger] occurrences(
                g2,
                q as u64,
            ) == occurrences(g, q as u64) by {}
            lemma_count_product_same(g2, g, (p - 1) as nat);
            assert(count_product(g2, p as nat) == count_product(g2, (p - 1) as nat) * (
            occurrences(g2, p) + 1));
            lemma_successor_below_power(run as nat);
            lemma_power_of_two_add(i as nat, run as nat);
            lemma_power_of_two_mono(j as nat, 63);
            assert(result * (run + 1) <= power_of_two(i as nat) * power_of_two(run as nat))
                by (nonlinear_arith)
                requires
                    result <= power_of_two(i as nat),
                    run + 1 <= power_of_two(run as nat),
            ;
            if j < len {
                assert(f@[j as int] != f@[j - 1]);
            }
        }
        result = result * (run + 1);
        i = j;
    }
    proof {
        assert(f@.subrange(0, len as int) =~= f@);
        if len > 0 {
            lemma_factor_at_most(f@, n as nat, len - 1);
            assert forall|q: nat| f@[len - 1] < q <= n implies #[trigger] occurrences(
                f@,
                q as u64,
            ) == 0 by {
                assert forall|k: int| 0 <= k < f@.len() implies #[trigger] f@[k] != q as u64 by {
                    assert(f@[k] <= f@[len - 1]);
                }
                lemma_occurrences_absent(f@, q as u64);
            }
            lemma_count_product_gap(f@, f@[len - 1] as nat, n as nat);
        } else {
            assert forall|q: nat| 0 < q <= n implies #[trigger] occurrences(f@, q as u64) == 0 by {
                lemma_occurrences_absent(f@, q as u64);
            }
            lemma_count_product_gap(f@, 0, n as nat);
        }
    }
    if result <= u32::MAX as u64 {
        Some(result as u32)
    } else {
        None
    }
}

} // verus!
