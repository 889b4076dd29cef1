//! The values that the number of primes up to `n` takes as `n` grows, each
//! reported once.

use vstd::prelude::*;
use crate::prime_sieve_vec::PrimeSieveVec;
use crate::primality::prime_count;

verus! {

/// Walks `n` upwards and reports the number of primes up to `n` each time it
/// exceeds what was reported before.
pub struct PrimesLessThan {
    /// The next value to count the primes up to.
    pub n: usize,
    /// The cache that answers.
    pub sieve: PrimeSieveVec,
    /// The count found last.
    pub greatest_so_far: usize,
}

/// From `from` up to, and without, `to`, no value has more than `count`
/// primes at or below it.
pub open spec fn none_exceeds(from: int, to: int, count: int) -> bool {
    forall|k: int| from <= k < to ==> #[trigger] prime_count(k) <= count
}

impl PrimesLessThan {
    /// Counts the primes up to `n`, `n + 1`, and so on, until a count exceeds
    /// the one found last, and returns it; `n` is then one past the value
    /// that gave it. `None` where the cache cannot grow far enough to count,
    /// and where `n` has reached the largest machine word.
    pub fn next(&mut self) -> (count: Option<usize>)
        requires
            old(self).sieve@.wf(),
        ensures
            final(self).sieve@.wf(),
            old(self).n <= final(self).n,
            match count {
                Some(c) => {
                    &&& old(self).n < final(self).n
                    &&& none_exceeds(
                        old(self).n as int,
                        final(self).n - 1,
                        old(self).greatest_so_far as int,
                    )
                    &&& c == prime_count(final(self).n - 1)
                    &&& c > old(self).greatest_so_far
                    &&& final(self).greatest_so_far == c
                    &&& final(self).sieve@ == old(self).sieve@.grown_to_value(final(self).n - 1)
                },
                None => {
                    &&& none_exceeds(
                        old(self).n as int,
                        final(self).n as int,
                        old(self).greatest_so_far as int,
                    )
                    &&& final(self).sieve@ == old(self).sieve@.grown_to_value(final(self).n as int)
                    &&& if final(self).sieve@.last() >= final(self).n {
                        &&& final(self).n == usize::MAX
                        &&& final(self).greatest_so_far == prime_count(usize::MAX as int)
                    } else {
                        final(self).greatest_so_far == if final(self).n > old(self).n {
                            prime_count(final(self).n - 1) as usize
                        } else {
                            old(self).greatest_so_far
                        }
                    }
                },
            },
    {
        let current_greatest_so_far: usize = self.greatest_so_far;
        while self.greatest_so_far <= current_greatest_so_far
            invariant
                self.sieve@.wf(),
                old(self).sieve@.wf(),
                current_greatest_so_far == old(self).greatest_so_far,
                old(self).n <= self.n,
                none_exceeds(old(self).n as int, self.n - 1, current_greatest_so_far as int),
                self.n > old(self).n ==> self.greatest_so_far == prime_count(self.n - 1),
                self.n == old(self).n ==> self.greatest_so_far == current_greatest_so_far,
                self.sieve@ == if self.n > old(self).n {
                    old(self).sieve@.grown_to_value(self.n - 1)
                } else {
                    old(self).sieve@
                },
            decreases usize::MAX - self.n,
        {
            proof {
                if self.n > old(self).n {
                    old(self).sieve@.lemma_grown_to_value_in_turn(self.n - 1, self.n as int);
                }
            }
            let answer: usize = match self.sieve.count_primes_less_or_equal(self.n) {
                Some(answer) => answer,
                None => {
                    return None;
                },
            };
            self.greatest_so_far = answer;
            self.n = match self.n.checked_add(1) {
                Some(n) => n,
                None => {
                    return None;
                },
            };
        }
        Some(self.greatest_so_far)
    }
}

} // verus!
