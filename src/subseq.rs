//! Products over runs of adjacent entries of a series.
use vstd::prelude::*;

verus! {

/// Gives, for each position of a sequence in turn, the rest of the sequence
/// from that position on.
pub struct SubIters<A> {
    items: Vec<A>,
    next_start: usize,
}

impl<A> View for SubIters<A> {
    /// The sequence and the position of the next rest to give.
    type V = (Seq<A>, nat);

    closed spec fn view(&self) -> (Seq<A>, nat) {
        (self.items@, self.next_start as nat)
    }
}

/// The rests of `items`, from the whole sequence down to its last element.
pub fn sub_iters<A: Copy>(items: Vec<A>) -> (r: SubIters<A>)
    ensures
        r@ == (items@, 0nat),
{
    SubIters { items, next_start: 0 }
}

impl<A: Copy> SubIters<A> {
    /// The rest of the sequence from the next position, moving on by one;
    /// nothing once every position has been given.
    pub fn next(&mut self) -> (r: Option<Vec<A>>)
        ensures
            final(self)@.0 == old(self)@.0,
            old(self)@.1 < old(self)@.0.len() ==> (r matches Some(v) && v@ == old(self)@.0.subrange(
                old(self)@.1 as int,
                old(self)@.0.len() as int,
            )) && final(self)@.1 == old(self)@.1 + 1,
            old(self)@.1 >= old(self)@.0.len() ==> r is None && final(self)@ == old(self)@,
    {
        if self.next_start >= self.items.len() {
            return None;
        }
        let start = self.next_start;
        let mut rest: Vec<A> = Vec::new();
        let mut k = start;
        while k < self.items.len()
            invariant
                start <= k <= self.items@.len(),
                self.next_start == start,
                rest@ == self.items@.subrange(start as int, k as int),
            decreases self.items@.len() - k,
        {
            rest.push(self.items[k]);
            k += 1;
            assert(rest@ =~= self.items@.subrange(start as int, k as int));
        }
        self.next_start = start + 1;
        Some(rest)
    }
}

/// Product of `s[i]`, `s[i + 1]`, ... up to `n` entries or the end of `s`.
pub open spec fn window_product(s: Seq<u64>, i: int, n: nat) -> nat
    decreases n,
{
    if n == 0 || i < 0 || i >= s.len() {
        1
    } else {
        s[i] as nat * window_product(s, i + 1, (n - 1) as nat)
    }
}

/// Product of the window that starts at `i`, computed from its end.
fn product_from(series: &Vec<u64>, i: usize, n: usize) -> (r: u64)
    requires
        i < series@.len(),
        forall|j: int, m: nat| i <= j < series@.len() && m <= n ==> #[trigger] window_product(series@, j, m) <= u64::MAX,
    ensures
        r == window_product(series@, i as int, n as nat),
    decreases n,
{
    if n == 0 {
        1
    } else if i >= series.len() - 1 {
        proof {
            assert(window_product(series@, i + 1, (n - 1) as nat) == 1);
        }
        assert(series[i as int] as nat * 1 == series[i as int] as nat);
        series[i]
    } else {
        let rest = product_from(series, i + 1, n - 1);
        proof {
            assert(window_product(series@, i as int, n as nat) <= u64::MAX);
        }
        series[i] * rest
    }
}

/// The largest product of up to `n` adjacent entries: for every starting
/// entry, the product of it and the entries after it, `n` in all or as many
/// as there are; nothing for an empty series.
pub fn largest_product_in_series(series: Vec<u64>, n: usize) -> (r: Option<u64>)
    requires
        forall|j: int, m: nat| 0 <= j < series@.len() && m <= n ==> #[trigger] window_product(series@, j, m) <= u64::MAX,
    ensures
        series@.len() == 0 ==> r is None,
        series@.len() > 0 ==> (r matches Some(m) && (exists|i: int|
            0 <= i < series@.len() && m == #[trigger] window_product(series@, i, n as nat)) && (forall|i: int|
            0 <= i < series@.len() ==> #[trigger] window_product(series@, i, n as nat) <= m)),
{
    let mut best: Option<u64> = None;
    let mut i: usize = 0;
    while i < series.len()
        invariant
            i <= series@.len(),
            forall|j: int, m: nat| 0 <= j < series@.len() && m <= n ==> #[trigger] window_product(series@, j, m) <= u64::MAX,
            i == 0 ==> best is None,
            i > 0 ==> (best matches Some(m) && (exists|k: int|
                0 <= k < i && m == #[trigger] window_product(series@, k, n as nat)) && (forall|k: int|
                0 <= k < i ==> #[trigger] window_product(series@, k, n as nat) <= m)),
        decreases series@.len() - i,
    {
        let p = product_from(&series, i, n);
        match best {
            Some(m) => {
                if p > m {
                    best = Some(p);
                }
            },
            None => {
                best = Some(p);
            },
        }
        i += 1;
    }
    best
}

} // verus!
