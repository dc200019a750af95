//! Primes by trial division, and a cache of the primes found so far.
use vstd::prelude::*;

use crate::ints::lemma_mod_of_multiple;

verus! {

/// No number from 2 up to the square root of `n` divides `n`. For `n` of 2
/// and more this is primality; 0 and 1 pass as well.
pub open spec fn passes_trial_division(n: nat) -> bool {
    forall|d: nat| 2 <= d && #[trigger] (d * d) <= n ==> n % d != 0
}

/// `s` holds the first `s.len()` primes, in increasing order.
pub open spec fn first_primes(s: Seq<u64>) -> bool {
    &&& s.len() > 0 ==> s[0] == 2
    &&& forall|i: int| 0 <= i < s.len() ==> #[trigger] s[i] >= 2 && passes_trial_division(s[i] as nat)
    &&& forall|i: int, j: int| 0 <= i < j < s.len() ==> s[i] < s[j]
    &&& forall|k: nat|
        2 <= k <= (if s.len() > 0 {
            s.last() as nat
        } else {
            0
        }) && #[trigger] passes_trial_division(k) ==> exists|i: int|
            0 <= i < s.len() && s[i] == k
}

proof fn lemma_square_compare(d: nat, n: nat)
    requires
        d >= 1,
    ensures
        d <= n / d <==> d * d <= n,
{
    vstd::arithmetic::div_mod::lemma_fundamental_div_mod(n as int, d as int);
    vstd::arithmetic::div_mod::lemma_mod_pos_bound(n as int, d as int);
    let q = n / d;
    let r = n % d;
    assert(d <= q ==> d * d <= n) by (nonlinear_arith)
        requires
            n == d * q + r,
            r >= 0,
    ;
    assert(d * d <= n ==> d <= q) by (nonlinear_arith)
        requires
            n == d * q + r,
            0 <= r < d,
            d >= 1,
    ;
}

/// Trial division by every number from 2 up to the square root of `n`.
pub fn is_prime(n: u64) -> (r: bool)
    ensures
        r == passes_trial_division(n as nat),
{
    let mut d: u64 = 2;
    while d <= n / d
        invariant
            d >= 2,
            forall|e: nat| 2 <= e < d ==> #[trigger] (e * e) <= n ==> (n as nat) % e != 0,
        decreases n - d,
    {
        proof {
            lemma_square_compare(d as nat, n as nat);
            assert(d * d <= n);
            assert(2 * d <= d * d) by (nonlinear_arith)
                requires
                    d >= 2,
            ;
            assert(d + 1 <= n);
        }
        if n % d == 0 {
            return false;
        }
        d += 1;
    }
    proof {
        lemma_square_compare(d as nat, n as nat);
        assert forall|e: nat| 2 <= e && #[trigger] (e * e) <= n implies (n as nat) % e != 0 by {
            if e >= d {
                assert(e * e >= d * d) by (nonlinear_arith)
                    requires
                        e >= d,
                        d >= 0,
                ;
            }
        }
    }
    true
}

/// The least number above `n` that passes trial division; nothing if there
/// is none up to `u64::MAX`.
fn next_after(n: u64) -> (r: Option<u64>)
    ensures
        r matches Some(m) ==> n < m && passes_trial_division(m as nat) && forall|k: nat|
            n < k < m ==> !#[trigger] passes_trial_division(k),
        r is None ==> forall|k: nat| n < k <= u64::MAX ==> !#[trigger] passes_trial_division(k),
{
    if n == u64::MAX {
        return None;
    }
    let mut pc: u64 = n + 1;
    loop
        invariant
            n < pc,
            forall|k: nat| n < k < pc ==> !#[trigger] passes_trial_division(k),
        decreases u64::MAX - pc,
    {
        if is_prime(pc) {
            return Some(pc);
        }
        if pc == u64::MAX {
            return None;
        }
        pc += 1;
    }
}

/// The primes in increasing order, computed one after the other.
pub struct PrimesIterator {
    n: u64,
}

impl View for PrimesIterator {
    /// The next prime to give.
    type V = nat;

    closed spec fn view(&self) -> nat {
        self.n as nat
    }
}

impl PrimesIterator {
    #[verifier::type_invariant]
    spec fn on_a_prime(&self) -> bool {
        self.n >= 2 && passes_trial_division(self.n as nat)
    }

    /// Starts at 2.
    pub fn new() -> (r: PrimesIterator)
        ensures
            r@ == 2,
    {
        proof {
            assert forall|d: nat| 2 <= d && #[trigger] (d * d) <= 2 implies 2nat % d != 0 by {
                assert(d * d >= 4) by (nonlinear_arith)
                    requires
                        d >= 2,
                ;
            }
        }
        PrimesIterator { n: 2 }
    }

    /// The next prime, moving on to the one after it; nothing once that one
    /// would not fit in `u64`.
    pub fn next(&mut self) -> (r: Option<u64>)
        ensures
            old(self)@ >= 2 && passes_trial_division(old(self)@),
            r matches Some(p) ==> p == old(self)@ && old(self)@ < final(self)@
                && passes_trial_division(final(self)@) && forall|k: nat|
                old(self)@ < k < final(self)@ ==> !#[trigger] passes_trial_division(k),
            r is None ==> final(self)@ == old(self)@ && forall|k: nat|
                old(self)@ < k <= u64::MAX ==> !#[trigger] passes_trial_division(k),
    {
        proof {
            use_type_invariant(&*self);
        }
        let prime = self.n;
        match next_after(prime) {
            Some(m) => {
                self.n = m;
                Some(prime)
            },
            None => None,
        }
    }
}

/// The primes found so far, in increasing order, shared by everything that
/// walks through the primes.
pub struct CachedPrimes {
    values: Vec<u64>,
}

impl View for CachedPrimes {
    type V = Seq<u64>;

    closed spec fn view(&self) -> Seq<u64> {
        self.values@
    }
}

impl CachedPrimes {
    #[verifier::type_invariant]
    spec fn holds_first_primes(&self) -> bool {
        first_primes(self.values@)
    }

    /// An empty cache with room set aside for `c` primes.
    pub fn with_capacity(c: usize) -> (r: CachedPrimes)
        ensures
            r@ == Seq::<u64>::empty(),
    {
        CachedPrimes { values: Vec::with_capacity(c) }
    }

    /// Number of primes cached so far, which are the first primes.
    pub fn len(&self) -> (r: usize)
        ensures
            r == self@.len(),
            first_primes(self@),
    {
        proof {
            use_type_invariant(self);
        }
        self.values.len()
    }

    /// An empty cache.
    pub fn new() -> (r: CachedPrimes)
        ensures
            r@ == Seq::<u64>::empty(),
    {
        CachedPrimes { values: Vec::new() }
    }

    /// The prime at `index` (2 at index 0), computing it when it is the first
    /// one not yet cached; nothing if it does not fit in `u64`.
    pub fn prime_at(&mut self, index: usize) -> (r: Option<u64>)
        requires
            index <= old(self)@.len(),
        ensures
            first_primes(final(self)@),
            index < old(self)@.len() ==> final(self)@ == old(self)@ && r == Some(
                old(self)@[index as int],
            ),
            index == old(self)@.len() ==> (r matches Some(p) ==> final(self)@ == old(self)@.push(p))
                && (r is None ==> final(self)@ == old(self)@),
            r is None ==> index == old(self)@.len() && forall|k: nat|
                (if old(self)@.len() > 0 {
                    old(self)@.last() as nat
                } else {
                    1
                }) < k <= u64::MAX ==> !#[trigger] passes_trial_division(k),
    {
        proof {
            use_type_invariant(&*self);
        }
        if index < self.values.len() {
            return Some(self.values[index]);
        }
        let last = if self.values.len() > 0 {
            self.values[self.values.len() - 1]
        } else {
            1
        };
        match next_after(last) {
            Some(next) => {
                let ghost before = self.values@;
                proof {
                    let after = before.push(next);
                    assert(before.len() == 0 ==> next == 2) by {
                        if before.len() == 0 && next != 2 {
                            assert(passes_trial_division(2)) by {
                                assert forall|d: nat| 2 <= d && #[trigger] (d * d) <= 2 implies 2nat
                                    % d != 0 by {
                                    assert(d * d >= 4) by (nonlinear_arith)
                                        requires
                                            d >= 2,
                                    ;
                                }
                            }
                        }
                    }
                    assert forall|k: nat|
                        2 <= k <= after.last() as nat && #[trigger] passes_trial_division(
                            k,
                        ) implies exists|i: int| 0 <= i < after.len() && after[i] == k by {
                        if k == next {
                            assert(after[before.len() as int] == k);
                        } else {
                            let i = choose|i: int| 0 <= i < before.len() && before[i] == k;
                            assert(after[i] == k);
                        }
                    }
                    assert(first_primes(after));
                }
                let mut taken = CachedPrimes::new();
                core::mem::swap(self, &mut taken);
                let mut values = taken.values;
                assert(values@ == before);
                values.push(next);
                *self = CachedPrimes { values };
                Some(next)
            },
            None => None,
        }
    }

    /// The first `count` primes, from the cache, which grows as needed; fewer
    /// only if the primes run out of `u64`.
    pub fn iter(&mut self, count: usize) -> (r: Vec<u64>)
        ensures
            first_primes(r@),
            r@.len() <= count,
            first_primes(final(self)@),
            r@.len() < count ==> forall|k: nat|
                (if r@.len() > 0 {
                    r@.last() as nat
                } else {
                    1
                }) < k <= u64::MAX ==> !#[trigger] passes_trial_division(k),
    {
        proof {
            use_type_invariant(&*self);
        }
        let mut out: Vec<u64> = Vec::new();
        let mut i: usize = 0;
        while i < count
            invariant
                i <= count,
                i <= self@.len(),
                out@ == self@.subrange(0, i as int),
                first_primes(self@),
            decreases count - i,
        {
            match self.prime_at(i) {
                Some(p) => {
                    out.push(p);
                    i += 1;
                    assert(out@ =~= self@.subrange(0, i as int));
                },
                None => {
                    proof {
                        lemma_prefix_first_primes(self@, i as int);
                    }
                    return out;
                },
            }
        }
        proof {
            lemma_prefix_first_primes(self@, i as int);
        }
        out
    }
}

proof fn lemma_prefix_first_primes(s: Seq<u64>, n: int)
    requires
        first_primes(s),
        0 <= n <= s.len(),
    ensures
        first_primes(s.subrange(0, n)),
{
    let t = s.subrange(0, n);
    assert forall|k: nat|
        2 <= k <= (if t.len() > 0 {
            t.last() as nat
        } else {
            0
        }) && #[trigger] passes_trial_division(k) implies exists|i: int|
        0 <= i < t.len() && t[i] == k by {
        let i = choose|i: int| 0 <= i < s.len() && s[i] == k;
        if i >= n {
            assert(s[i] > s[n - 1]);
        }
        assert(t[i] == k);
    }
}

/// Product of the entries; 1 for none.
pub open spec fn product_of(s: Seq<u64>) -> nat
    decreases s.len(),
{
    if s.len() == 0 {
        1
    } else {
        product_of(s.drop_last()) * s.last() as nat
    }
}

/// `q` is the least divisor of `b` from 2 up.
pub open spec fn least_divisor(q: nat, b: nat) -> bool {
    &&& 2 <= q <= b
    &&& b % q == 0
    &&& forall|e: nat| 2 <= e < q ==> #[trigger] (b % e) != 0
}

proof fn lemma_least_divisor_exists(b: nat, lo: nat)
    requires
        b >= 2,
        2 <= lo <= b,
        forall|e: nat| 2 <= e < lo ==> #[trigger] (b % e) != 0,
    ensures
        exists|q: nat| least_divisor(q, b),
    decreases b - lo,
{
    if b % lo == 0 {
        assert(least_divisor(lo, b));
    } else {
        vstd::arithmetic::div_mod::lemma_mod_self_0(b as int);
        assert(lo < b);
        assert forall|e: nat| 2 <= e < lo + 1 implies #[trigger] (b % e) != 0 by {
            if e < lo {
            }
        }
        lemma_least_divisor_exists(b, lo + 1);
    }
}

/// The least divisor from 2 up is prime.
proof fn lemma_least_divisor_passes(q: nat, b: nat)
    requires
        least_divisor(q, b),
    ensures
        passes_trial_division(q),
{
    assert forall|d: nat| 2 <= d && #[trigger] (d * d) <= q implies q % d != 0 by {
        if q % d == 0 {
            assert(d < q) by (nonlinear_arith)
                requires
                    2 <= d,
                    d * d <= q,
            ;
            lemma_mod_of_multiple(b, q, d);
            assert(b % d == 0);
        }
    }
}

/// `f` lists the prime factors of `n` in increasing order, each as often as
/// it divides `n`; it is empty for 0 and 1.
pub open spec fn is_factorization(f: Seq<u64>, n: nat) -> bool {
    &&& n >= 1 ==> product_of(f) == n
    &&& n == 0 ==> f.len() == 0
    &&& forall|i: int| 0 <= i < f.len() ==> #[trigger] f[i] >= 2 && passes_trial_division(f[i] as nat)
    &&& forall|i: int, j: int| 0 <= i < j < f.len() ==> f[i] <= f[j]
}

/// The prime factors of `n` in increasing order, each as often as it divides
/// `n`, so that they multiply to `n`; none for 0 and 1. The primes are taken
/// from the cache, which grows as needed.
pub fn factorize(n: u64, primes: &mut CachedPrimes) -> (r: Vec<u64>)
    ensures
        first_primes(final(primes)@),
        is_factorization(r@, n as nat),
{
    proof {
        use_type_invariant(&*primes);
    }
    let mut factors: Vec<u64> = Vec::new();
    let mut buff = n;
    proof {
        assert(product_of(factors@) == 1);
    }
    while buff > 1
        invariant
            n >= 1 ==> product_of(factors@) * buff == n,
            n == 0 ==> buff == 0 && factors@.len() == 0,
            forall|i: int|
                0 <= i < factors@.len() ==> #[trigger] factors@[i] >= 2 && passes_trial_division(
                    factors@[i] as nat,
                ),
            forall|i: int, j: int| 0 <= i < j < factors@.len() ==> factors@[i] <= factors@[j],
            factors@.len() > 0 ==> forall|e: nat|
                2 <= e < factors@.last() ==> #[trigger] ((buff as nat) % e) != 0,
            first_primes(primes@),
        decreases buff,
    {
        proof {
            lemma_least_divisor_exists(buff as nat, 2);
        }
        let ghost q: nat = choose|q: nat| least_divisor(q, buff as nat);
        proof {
            lemma_least_divisor_passes(q, buff as nat);
        }
        let mut j: usize = 0;
        let mut factor: u64 = 0;
        loop
            invariant
                buff > 1,
                least_divisor(q, buff as nat),
                passes_trial_division(q),
                first_primes(primes@),
                j <= primes@.len(),
                forall|i: int| 0 <= i < j ==> #[trigger] primes@[i] < q,
                forall|i: int| 0 <= i < j ==> (buff as nat) % (#[trigger] primes@[i] as nat) != 0,
            ensures
                factor == q,
                first_primes(primes@),
            decreases q - j,
        {
            let ghost before = primes@;
            match primes.prime_at(j) {
                Some(p) => {
                    assert(p == primes@[j as int]);
                    assert(p <= q) by {
                        if p > q {
                            let i = choose|i: int| 0 <= i < primes@.len() && primes@[i] == q;
                            if i >= j {
                                assert(primes@[i] >= primes@[j as int]);
                            }
                            assert((buff as nat) % (primes@[i] as nat) != 0);
                        }
                    }
                    assert(j < q) by {
                        if j > 0 {
                            lemma_index_below(primes@, j as int);
                        }
                    }
                    if buff % p == 0 {
                        factor = p;
                        break;
                    }
                    let cached = primes.values.len();
                    assert(j < cached);
                    j += 1;
                },
                None => {
                    proof {
                        let last: nat = if before.len() > 0 {
                            before.last() as nat
                        } else {
                            1
                        };
                        if before.len() > 0 {
                            assert(before[before.len() - 1] < q);
                        }
                        assert(last < q);
                        assert(!passes_trial_division(q));
                    }
                    return factors;
                },
            }
        }
        let ghost old_factors = factors@;
        let ghost old_buff = buff;
        factors.push(factor);
        buff = buff / factor;
        proof {
            assert(factors@.drop_last() =~= old_factors);
            vstd::arithmetic::div_mod::lemma_fundamental_div_mod(old_buff as int, q as int);
            let b1 = buff as nat;
            assert(old_buff == q * b1);
            if n >= 1 {
                assert(product_of(factors@) * b1 == product_of(old_factors) * old_buff)
                    by (nonlinear_arith)
                    requires
                        product_of(factors@) == product_of(old_factors) * q,
                        old_buff == q * b1,
                ;
            }
            if old_factors.len() > 0 {
                assert(q >= old_factors.last()) by {
                    if q < old_factors.last() {
                        assert(((old_buff as nat) % q) != 0);
                    }
                }
            }
            assert(b1 >= 1) by (nonlinear_arith)
                requires
                    old_buff == q * b1,
                    old_buff > 1,
            ;
            assert(b1 < old_buff) by (nonlinear_arith)
                requires
                    old_buff == q * b1,
                    q >= 2,
                    b1 >= 1,
            ;
            assert forall|e: nat| 2 <= e < factors@.last() implies #[trigger] ((buff as nat) % e)
                != 0 by {
                if b1 % e == 0 {
                    vstd::arithmetic::div_mod::lemma_mod_multiples_basic(q as int, b1 as int);
                    assert((q * b1) % b1 == 0) by {
                        assert(q * b1 == b1 * q) by (nonlinear_arith);
                    }
                    lemma_mod_of_multiple(old_buff as nat, b1, e);
                    assert(((old_buff as nat) % e) != 0);
                }
            }
        }
    }
    factors
}

proof fn lemma_index_below(s: Seq<u64>, j: int)
    requires
        first_primes(s),
        1 <= j <= s.len(),
    ensures
        s[j - 1] >= j + 1,
    decreases j,
{
    if j > 1 {
        lemma_index_below(s, j - 1);
        assert(s[j - 2] < s[j - 1]);
    }
}

/// How many times `p` occurs in `f`.
pub open spec fn occurrences(f: Seq<u64>, p: u64) -> nat
    decreases f.len(),
{
    if f.len() == 0 {
        0
    } else {
        occurrences(f.drop_last(), p) + if f.last() == p {
            1nat
        } else {
            0
        }
    }
}

/// 2 to the power `k`.
pub open spec fn power_of_two(k: nat) -> nat
    decreases k,
{
    if k == 0 {
        1
    } else {
        2 * power_of_two((k - 1) as nat)
    }
}

pub(crate) proof fn lemma_power_of_two_mono(j: nat, k: nat)
    requires
        j <= k,
    ensures
        power_of_two(j) <= power_of_two(k),
    decreases k,
{
    if j < k {
        lemma_power_of_two_mono(j, (k - 1) as nat);
    }
}

proof fn lemma_product_at_least_power(f: Seq<u64>)
    requires
        forall|i: int| 0 <= i < f.len() ==> #[trigger] f[i] >= 2,
    ensures
        product_of(f) >= power_of_two(f.len()),
    decreases f.len(),
{
    if f.len() > 0 {
        let g = f.drop_last();
        assert forall|i: int| 0 <= i < g.len() implies #[trigger] g[i] >= 2 by {
            assert(g[i] == f[i]);
        }
        lemma_product_at_least_power(g);
        assert(f.last() == f[f.len() - 1]);
        let p = product_of(g);
        let q = power_of_two(g.len());
        assert(p * f.last() as nat >= 2 * q) by (nonlinear_arith)
            requires
                p >= q,
                f.last() >= 2,
        ;
    }
}

/// A factorization of a `u64` has fewer than 64 factors.
pub(crate) proof fn lemma_factorization_short(f: Seq<u64>, n: nat)
    requires
        is_factorization(f, n),
        n <= u64::MAX,
    ensures
        f.len() < 64,
{
    if n >= 1 {
        lemma_product_at_least_power(f);
        if f.len() >= 64 {
            lemma_power_of_two_mono(64, f.len());
            assert(power_of_two(64) == 18446744073709551616) by {
                reveal_with_fuel(power_of_two, 65);
            }
        }
    }
}

/// The prime factors of `n` with the number of times each divides `n`;
/// empty for 0 and 1.
pub fn factorize_unique(n: u64, primes: &mut CachedPrimes) -> (r: std::collections::HashMap<u64, u32>)
    ensures
        first_primes(final(primes)@),
        exists|f: Seq<u64>|
            #[trigger] is_factorization(f, n as nat) && forall|p: u64|
                (r@.contains_key(p) <==> occurrences(f, p) > 0) && (r@.contains_key(p) ==> r@[p]
                    == occurrences(f, p)),
{
    broadcast use vstd::std_specs::hash::group_hash_axioms;

    let factors = factorize(n, primes);
    proof {
        lemma_factorization_short(factors@, n as nat);
        assert(factors@.subrange(0, 0) =~= Seq::<u64>::empty());
    }
    let mut result: std::collections::HashMap<u64, u32> = std::collections::HashMap::new();
    let mut i: usize = 0;
    while i < factors.len()
        invariant
            i <= factors@.len() < 64,
            forall|p: u64|
                (result@.contains_key(p) <==> occurrences(factors@.subrange(0, i as int), p) > 0)
                    && (result@.contains_key(p) ==> result@[p] == occurrences(
                    factors@.subrange(0, i as int),
                    p,
                )) && #[trigger] occurrences(factors@.subrange(0, i as int), p) <= i,
        decreases factors@.len() - i,
    {
        let factor = factors[i];
        let ghost prefix = factors@.subrange(0, i as int);
        let ghost next = factors@.subrange(0, i + 1);
        proof {
            assert(next.drop_last() =~= prefix);
            assert(next.last() == factor);
        }
        let new_count: u32 = match result.get(&factor) {
            Some(c) => {
                proof {
                    assert(occurrences(prefix, factor) <= i);
                    assert(result@.contains_key(factor) && result@[factor] == *c);
                }
                *c + 1
            },
            None => 1,
        };
        result.insert(factor, new_count);
        i += 1;
        proof {
            assert forall|p: u64|
                (result@.contains_key(p) <==> occurrences(next, p) > 0) && (result@.contains_key(p)
                    ==> result@[p] == occurrences(next, p)) && #[trigger] occurrences(next, p)
                    <= i by {
                assert(occurrences(next, p) == occurrences(prefix, p) + if factor == p {
                    1nat
                } else {
                    0
                });
            }
        }
    }
    proof {
        assert(factors@.subrange(0, factors@.len() as int) =~= factors@);
    }
    result
}

/// The product of `occurrences(f, q) + 1` over every `q` from 1 to `top`:
/// for a factorization, the number of divisors.
pub open spec fn count_product(f: Seq<u64>, top: nat) -> nat
    decreases top,
{
    if top == 0 {
        1
    } else {
        count_product(f, (top - 1) as nat) * (occurrences(f, top as u64) + 1)
    }
}

pub(crate) proof fn lemma_occurrences_absent(g: Seq<u64>, q: u64)
    requires
        forall|i: int| 0 <= i < g.len() ==> #[trigger] g[i] != q,
    ensures
        occurrences(g, q) == 0,
    decreases g.len(),
{
    if g.len() > 0 {
        let h = g.drop_last();
        assert forall|i: int| 0 <= i < h.len() implies #[trigger] h[i] != q by {
            assert(h[i] == g[i]);
        }
        assert(g.last() == g[g.len() - 1]);
        lemma_occurrences_absent(h, q);
    }
}

pub(crate) proof fn lemma_count_product_same(g1: Seq<u64>, g2: Seq<u64>, top: nat)
    requires
        top <= u64::MAX,
        forall|q: nat| 1 <= q <= top ==> #[trigger] occurrences(g1, q as u64) == occurrences(g2, q as u64),
    ensures
        count_product(g1, top) == count_product(g2, top),
    decreases top,
{
    if top > 0 {
        lemma_count_product_same(g1, g2, (top - 1) as nat);
        assert(occurrences(g1, top as u64) == occurrences(g2, top as u64));
    }
}

pub(crate) proof fn lemma_count_product_gap(g: Seq<u64>, low: nat, top: nat)
    requires
        low <= top <= u64::MAX,
        forall|q: nat| low < q <= top ==> #[trigger] occurrences(g, q as u64) == 0,
    ensures
        count_product(g, top) == count_product(g, low),
    decreases top,
{
    if top > low {
        lemma_count_product_gap(g, low, (top - 1) as nat);
        assert(occurrences(g, top as u64) == 0);
        let c = count_product(g, (top - 1) as nat);
        assert(count_product(g, top) == c * 1);
        assert(c * 1 == c);
    }
}

pub(crate) proof fn lemma_factor_at_most(f: Seq<u64>, n: nat, i: int)
    requires
        is_factorization(f, n),
        0 <= i < f.len(),
    ensures
        f[i] <= n,
    decreases f.len(),
{
    let g = f.drop_last();
    assert(f.last() == f[f.len() - 1]);
    lemma_product_at_least_power(g);
    lemma_pow_positive(g.len());
    assert forall|k: int| 0 <= k < g.len() implies #[trigger] g[k] >= 2 by {
        assert(g[k] == f[k]);
    }
    if i == f.len() - 1 {
        assert(product_of(g) * (f.last() as nat) >= f.last() as nat) by (nonlinear_arith)
            requires
                product_of(g) >= 1,
        ;
    } else {
        assert(is_factorization(g, product_of(g))) by {
            assert forall|k: int| 0 <= k < g.len() implies #[trigger] g[k] >= 2
                && passes_trial_division(g[k] as nat) by {
                assert(g[k] == f[k]);
            }
            assert forall|a: int, b: int| 0 <= a < b < g.len() implies g[a] <= g[b] by {
                assert(g[a] == f[a] && g[b] == f[b]);
            }
        }
        lemma_factor_at_most(g, product_of(g), i);
        assert(g[i] == f[i]);
        assert(product_of(g) * (f.last() as nat) >= product_of(g)) by (nonlinear_arith)
            requires
                f.last() >= 2,
        ;
    }
}

proof fn lemma_pow_positive(k: nat)
    ensures
        power_of_two(k) >= 1,
    decreases k,
{
    if k > 0 {
        lemma_pow_positive((k - 1) as nat);
    }
}

pub(crate) proof fn lemma_power_of_two_add(a: nat, b: nat)
    ensures
        power_of_two(a + b) == power_of_two(a) * power_of_two(b),
    decreases b,
{
    if b > 0 {
        lemma_power_of_two_add(a, (b - 1) as nat);
        assert(a + b - 1 == a + (b - 1) as nat);
        let x = power_of_two(a);
        let y = power_of_two((b - 1) as nat);
        assert(2 * (x * y) == x * (2 * y)) by (nonlinear_arith);
    } else {
        assert(power_of_two(a) * 1 == power_of_two(a));
    }
}

pub(crate) proof fn lemma_successor_below_power(k: nat)
    ensures
        k + 1 <= power_of_two(k),
    decreases k,
{
    if k > 0 {
        lemma_successor_below_power((k - 1) as nat);
        lemma_pow_positive((k - 1) as nat);
    }
}

} // verus!
