//! The Collatz sequence over `i64`, seeded with one or more initial numbers.
use vstd::prelude::*;

use crate::nonempty::NonEmptyVec;

verus! {

/// One Collatz step: halve an even number, otherwise triple it and add one.
pub open spec fn collatz_step(x: int) -> int {
    if x % 2 == 0 {
        x / 2
    } else {
        3 * x + 1
    }
}

/// The `k`-th number of the sequence seeded with `init`: the first seed,
/// then the step applied to each seed in turn, then the step applied to the
/// number before.
pub open spec fn seq_term(init: Seq<i64>, k: nat) -> int
    decreases k,
{
    if k == 0 {
        init[0] as int
    } else if k <= init.len() {
        collatz_step(init[k - 1] as int)
    } else {
        collatz_step(seq_term(init, (k - 1) as nat))
    }
}

/// One Collatz step; nothing when the result does not fit in `i64`.
fn step(last: i64) -> (r: Option<i64>)
    ensures
        i64::MIN <= collatz_step(last as int) <= i64::MAX ==> r == Some(
            collatz_step(last as int) as i64,
        ),
        !(i64::MIN <= collatz_step(last as int) <= i64::MAX) ==> r is None,
{
    if last % 2 == 0 {
        Some(last / 2)
    } else if last > 3074457345618258602 || last < -3074457345618258603 {
        None
    } else if last < 0 {
        Some(3 * (last + 1) - 2)
    } else {
        Some(3 * last + 1)
    }
}

/// A sequence given by its initial numbers and the Collatz step.
pub struct IterativeSeq {
    initial: NonEmptyVec<i64>,
}

impl View for IterativeSeq {
    /// The initial numbers.
    type V = Seq<i64>;

    closed spec fn view(&self) -> Seq<i64> {
        self.initial@
    }
}

/// The Collatz sequence that starts at `first`.
pub fn collatz(first: i64) -> (r: IterativeSeq)
    ensures
        r@ == seq![first],
{
    IterativeSeq { initial: NonEmptyVec::singleton(first) }
}

/// Walks a sequence from its first number.
pub struct IterativeSeqIterator<'a> {
    seq: &'a IterativeSeq,
    last_initial_ix: Option<usize>,
    last_value: Option<i64>,
}

impl<'a> IterativeSeqIterator<'a> {
    /// How many numbers the walk has given: `k` when the state is the one
    /// reached after `k` numbers.
    pub closed spec fn given(&self, k: nat) -> bool {
        let init = self.seq@;
        &&& k == 0 ==> self.last_initial_ix is None && self.last_value is None
        &&& 1 <= k <= init.len() ==> self.last_initial_ix == Some((k - 1) as usize)
            && self.last_value is None
        &&& k > init.len() ==> self.last_initial_ix is None && self.last_value == Some(
            seq_term(init, (k - 1) as nat) as i64,
        ) && i64::MIN <= seq_term(init, (k - 1) as nat) <= i64::MAX
    }

    /// The initial numbers of the sequence walked.
    pub closed spec fn source(&self) -> Seq<i64> {
        self.seq@
    }

    /// The state is one reached by walking from the start.
    pub closed spec fn consistent(&self) -> bool {
        exists|k: nat| #[trigger] self.given(k)
    }

    /// The next number of the sequence; nothing when it does not fit in `i64`.
    pub fn next(&mut self) -> (r: Option<i64>)
        requires
            old(self).consistent(),
        ensures
            final(self).source() == old(self).source(),
            final(self).consistent(),
            forall|k: nat|
                #[trigger] old(self).given(k) ==> {
                    let t = seq_term(old(self).source(), k);
                    &&& i64::MIN <= t <= i64::MAX ==> r == Some(t as i64) && final(self).given(k + 1)
                    &&& !(i64::MIN <= t <= i64::MAX) ==> r is None && *final(self) == *old(self)
                },
    {
        let ghost before = *self;
        let ghost init_s = before.seq@;
        let ghost k0 = choose|k: nat| before.given(k);
        let init = &self.seq.initial;
        let tail_len = init.tail.len();
        proof {
            assert(init_s[0] == init.head);
            assert(init_s.len() == tail_len + 1);
        }
        match (self.last_initial_ix, self.last_value) {
            (None, None) => {
                self.last_initial_ix = Some(0);
                proof {
                    assert forall|k: nat| #[trigger] before.given(k) implies k == 0 by {}
                    assert(self.given(1));
                }
                Some(init.head)
            },
            (Some(ix), _) => {
                proof {
                    assert forall|k: nat| #[trigger] before.given(k) implies k == ix + 1 by {}
                    assert(k0 == ix + 1);
                    assert(seq_term(init_s, k0) == collatz_step(init_s[ix as int] as int));
                }
                match step(*init.index(ix)) {
                    Some(new_value) => {
                        if ix == tail_len {
                            self.last_initial_ix = None;
                            self.last_value = Some(new_value);
                        } else {
                            self.last_initial_ix = Some(ix + 1);
                        }
                        proof {
                            assert(self.given(k0 + 1));
                        }
                        Some(new_value)
                    },
                    None => None,
                }
            },
            (None, Some(last_value)) => {
                proof {
                    assert forall|k: nat| #[trigger] before.given(k) implies k > init_s.len()
                        && seq_term(init_s, k) == collatz_step(last_value as int) by {
                        assert(seq_term(init_s, k) == collatz_step(seq_term(init_s, (k - 1) as nat)));
                    }
                }
                match step(last_value) {
                    Some(new_value) => {
                        self.last_value = Some(new_value);
                        proof {
                            assert forall|k: nat| #[trigger] before.given(k) implies self.given(
                                k + 1,
                            ) by {}
                            assert(self.given(k0 + 1));
                        }
                        Some(new_value)
                    },
                    None => None,
                }
            },
        }
    }
}

/// None of the numbers before the `m`-th is `target`.
pub open spec fn misses_below(init: Seq<i64>, target: int, m: nat) -> bool {
    forall|j: nat| j < m ==> #[trigger] seq_term(init, j) != target
}

impl IterativeSeq {
    /// The number of numbers before the first that equals `convergence`.
    /// Nothing when a number on the way does not fit in `i64` or the count
    /// reaches `usize::MAX`.
    pub fn length(&self, convergence: i64) -> (r: Option<usize>)
        ensures
            r matches Some(k) ==> misses_below(self@, convergence as int, k as nat) && seq_term(
                self@,
                k as nat,
            ) == convergence,
            r is None ==> exists|m: nat|
                #[trigger] misses_below(self@, convergence as int, m) && (!(i64::MIN <= seq_term(
                    self@,
                    m,
                ) <= i64::MAX) || m >= usize::MAX),
    {
        let mut it = self.iter();
        let mut count: usize = 0;
        loop
            invariant
                it.given(count as nat),
                it.source() == self@,
                misses_below(self@, convergence as int, count as nat),
            decreases usize::MAX - count,
        {
            match it.next() {
                Some(n) => {
                    if n == convergence {
                        return Some(count);
                    }
                    if count == usize::MAX {
                        proof {
                            assert(misses_below(self@, convergence as int, count as nat));
                        }
                        return None;
                    }
                    count += 1;
                },
                None => {
                    proof {
                        assert(misses_below(self@, convergence as int, count as nat));
                    }
                    return None;
                },
            }
        }
    }

    /// The number at position `n`, counting from 0; nothing when it, or one
    /// before it, does not fit in `i64`.
    pub fn nth(&self, n: usize) -> (r: Option<i64>)
        ensures
            r matches Some(v) ==> v == seq_term(self@, n as nat),
            r is None ==> exists|j: nat|
                j <= n && !(i64::MIN <= #[trigger] seq_term(self@, j) <= i64::MAX),
    {
        let mut it = self.iter();
        let mut i: usize = 0;
        loop
            invariant
                it.given(i as nat),
                it.source() == self@,
                i <= n,
            decreases n - i,
        {
            match it.next() {
                Some(v) => {
                    if i == n {
                        return Some(v);
                    }
                    i += 1;
                },
                None => {
                    return None;
                },
            }
        }
    }

    /// A walk from the first number.
    pub fn iter(&self) -> (r: IterativeSeqIterator<'_>)
        ensures
            r.source() == self@,
            r.given(0),
    {
        IterativeSeqIterator { seq: self, last_initial_ix: None, last_value: None }
    }
}

} // verus!
