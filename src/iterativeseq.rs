//! The Collatz sequence over `u64`, walked from its first number.
use vstd::prelude::*;

verus! {

/// One Collatz step: halve an even number, otherwise triple it and add one.
pub open spec fn collatz_step(x: nat) -> nat {
    if x % 2 == 0 {
        x / 2
    } else {
        3 * x + 1
    }
}

/// The number reached after `k` Collatz steps from `first`.
pub open spec fn collatz_term(first: nat, k: nat) -> nat
    decreases k,
{
    if k == 0 {
        first
    } else {
        collatz_step(collatz_term(first, (k - 1) as nat))
    }
}

/// None of the numbers after `first` up to the `m`-th step is `target`.
pub open spec fn misses_until(first: nat, target: nat, m: nat) -> bool {
    forall|j: nat| 1 <= j <= m ==> #[trigger] collatz_term(first, j) != target
}

/// One Collatz step; nothing when the result does not fit in `u64`.
fn step(last: u64) -> (r: Option<u64>)
    ensures
        collatz_step(last as nat) <= u64::MAX ==> r == Some(collatz_step(last as nat) as u64),
        collatz_step(last as nat) > u64::MAX ==> r is None,
{
    if last % 2 == 0 {
        Some(last / 2)
    } else if last > (u64::MAX - 1) / 3 {
        None
    } else {
        Some(3 * last + 1)
    }
}

/// A sequence given by its first number and the Collatz step.
pub struct IterativeSeq {
    pub first: u64,
}

/// The Collatz sequence that starts at `first`.
pub fn collatz(first: u64) -> (r: IterativeSeq)
    ensures
        r.first == first,
{
    IterativeSeq { first: first }
}

/// Walks the numbers after the first one, one step at a time.
pub struct IterativeSeqIterator {
    last: u64,
}

impl View for IterativeSeqIterator {
    /// The number the walk has reached.
    type V = nat;

    closed spec fn view(&self) -> nat {
        self.last as nat
    }
}

impl IterativeSeqIterator {
    /// The next number of the sequence; nothing when it does not fit in `u64`.
    pub fn next(&mut self) -> (r: Option<u64>)
        ensures
            collatz_step(old(self)@) <= u64::MAX ==> r == Some(collatz_step(old(self)@) as u64)
                && final(self)@ == collatz_step(old(self)@),
            collatz_step(old(self)@) > u64::MAX ==> r is None && final(self)@ == old(self)@,
    {
        match step(self.last) {
            Some(v) => {
                self.last = v;
                Some(v)
            },
            None => None,
        }
    }
}

impl IterativeSeq {
    /// The number of steps taken before the step that reaches `convergence`:
    /// the count of numbers after the first one that differ from
    /// `convergence`, up to the first that equals it. Nothing when a number
    /// on the way does not fit in `u64` or the count reaches `usize::MAX`.
    pub fn length(&self, convergence: u64) -> (r: Option<usize>)
        ensures
            r matches Some(k) ==> collatz_term(self.first as nat, (k + 1) as nat) == convergence && forall|
                j: nat,
            | 1 <= j <= k ==> #[trigger] collatz_term(self.first as nat, j) != convergence,
            r is None ==> exists|m: nat|
                #[trigger] misses_until(self.first as nat, convergence as nat, m) && (collatz_term(
                    self.first as nat,
                    m + 1,
                ) > u64::MAX || m >= usize::MAX),
    {
        let mut it = self.iter();
        let mut count: usize = 0;
        loop
            invariant
                it@ == collatz_term(self.first as nat, count as nat),
                forall|j: nat|
                    1 <= j <= count ==> #[trigger] collatz_term(self.first as nat, j) != convergence,
            decreases usize::MAX - count,
        {
            match it.next() {
                Some(n) => {
                    if n == convergence {
                        return Some(count);
                    }
                    if count == usize::MAX {
                        proof {
                            assert(misses_until(self.first as nat, convergence as nat, count as nat));
                        }
                        return None;
                    }
                    count += 1;
                },
                None => {
                    proof {
                        assert(misses_until(self.first as nat, convergence as nat, count as nat));
                    }
                    return None;
                },
            }
        }
    }

    /// A walk from the first number.
    pub fn iter(&self) -> (r: IterativeSeqIterator)
        ensures
            r@ == self.first,
    {
        IterativeSeqIterator { last: self.first }
    }
}

} // verus!
