//! The sieve: a cache of primes that grows window by window as queries ask
//! for more.

use vstd::prelude::*;
use crate::model::SieveState;
use crate::primality::{
    is_nth_prime, is_prime, lemma_count_in_list, lemma_entry_is_nth_prime, lemma_primes_between,
    prime_count, strictly_increasing,
};
use crate::search::bisect_right;
use crate::parallel::strike_in_parallel;
use crate::window::{append_survivors, lemma_window_exact, sieve_window};

verus! {

/// A growing cache of primes.
pub struct PrimeSieveVec {
    /// The primes found so far, ascending.
    pub primes: Vec<usize>,
    /// Index of the prime whose square is where the next window starts.
    pub end_segment: usize,
    /// How many primes further the cursor moves in one growth step.
    pub extend_at_most_n_segments_target: usize,
}

impl View for PrimeSieveVec {
    type V = SieveState;

    open spec fn view(&self) -> SieveState {
        SieveState {
            primes: self.primes@,
            end_segment: self.end_segment as int,
            target: self.extend_at_most_n_segments_target as int,
        }
    }
}

impl Default for PrimeSieveVec {
    /// The seeded sieve: the primes below nine, one prime per growth step.
    fn default() -> (sieve: Self)
        ensures
            sieve@ == SieveState::seed(),
    {
        let sieve = Self {
            primes: vec![2, 3, 5, 7],
            end_segment: 1,
            extend_at_most_n_segments_target: 1,
        };
        assert(sieve.primes@ =~= seq![2usize, 3usize, 5usize, 7usize]);
        sieve
    }
}

impl PrimeSieveVec {
    /// A sieve that grows `extend_at_most_n_segments_target` primes per step,
    /// seeded and then grown one prime at a time until a step of that width
    /// has its bounding prime in the cache.
    #[must_use]
    pub fn new(extend_at_most_n_segments_target: usize) -> (sieve: Self)
        requires
            1 <= extend_at_most_n_segments_target,
        ensures
            sieve@.wf(),
            sieve@ == (SieveState {
                target: extend_at_most_n_segments_target as int,
                ..SieveState::seed().primed_for(extend_at_most_n_segments_target as int)
            }),
            sieve@.end_segment + extend_at_most_n_segments_target < sieve@.primes.len()
                || !sieve@.can_extend_by(1),
    {
        let mut sieve = Self::default();
        proof {
            SieveState::lemma_seed_wf();
            SieveState::seed().lemma_primed_for(extend_at_most_n_segments_target as int);
        }
        let mut open: bool = !sieve.holds_bound_of(extend_at_most_n_segments_target)
            && sieve.can_extend_by(1);
        while open
            invariant
                sieve@.wf(),
                sieve@.target == 1,
                sieve@.primed_for(extend_at_most_n_segments_target as int) == SieveState::seed().primed_for(
                    extend_at_most_n_segments_target as int,
                ),
                open == (!(sieve@.end_segment + extend_at_most_n_segments_target
                    < sieve@.primes.len()) && sieve@.can_extend_by(1)),
            decreases usize::MAX - sieve.primes@[sieve.end_segment as int],
        {
            proof {
                sieve@.lemma_cursor_moves(1);
            }
            sieve.extend_at_most_n_segments(1);
            open = !sieve.holds_bound_of(extend_at_most_n_segments_target) && sieve.can_extend_by(
                1,
            );
        }
        sieve.extend_at_most_n_segments_target = extend_at_most_n_segments_target;
        sieve
    }

    /// Whether the prime `n` places past the cursor is in the cache.
    fn holds_bound_of(&self, n: usize) -> (held: bool)
        requires
            self@.wf(),
        ensures
            held == (self@.end_segment + n < self@.primes.len()),
    {
        n < self.primes.len() - self.end_segment
    }

    /// The largest prime found so far.
    #[must_use]
    pub fn most_recent_prime_unchecked(&self) -> (last: &usize)
        requires
            self.primes@.len() > 0,
        ensures
            *last == self.primes@[self.primes@.len() - 1],
    {
        &self.primes[self.primes.len() - 1]
    }

    /// The largest prime found so far, if there is any.
    #[must_use]
    pub fn most_recent_prime(&self) -> (last: Option<&usize>)
        ensures
            self.primes@.len() == 0 ==> last is None,
            self.primes@.len() > 0 ==> last == Some(&self.primes@[self.primes@.len() - 1]),
    {
        if self.primes.len() == 0 {
            None
        } else {
            Some(&self.primes[self.primes.len() - 1])
        }
    }

    /// Makes room for `additional` more primes; what the cache holds stays.
    pub fn reserve_in_advance(&mut self, additional: usize)
        ensures
            final(self)@ == old(self)@,
    {
        self.primes.reserve(additional);
    }

    /// Whether a growth step of `n` primes is possible from here.
    pub fn can_extend_by(&self, n: usize) -> (possible: bool)
        ensures
            possible == self@.can_extend_by(n as int),
    {
        let k: usize = self.end_segment;
        let len: usize = self.primes.len();
        if k >= len || n >= len - k {
            return false;
        }
        let q: usize = self.primes[k + n];
        q.checked_mul(q).is_some()
    }

    /// Grows the cache by one window: with `p` the prime under the cursor and
    /// `q` the prime `n` places further, the primes from `p * p` up to, and
    /// without, `q * q` are appended and the cursor moves onto `q`.
    pub fn extend_at_most_n_segments(&mut self, n: usize)
        requires
            old(self)@.wf(),
            old(self)@.can_extend_by(n as int),
        ensures
            final(self)@ == old(self)@.extended_by(n as int),
            final(self)@.wf(),
    {
        let k: usize = self.end_segment;
        let len: usize = self.primes.len();
        assert(k + n < len);
        let p: usize = self.primes[k];
        let q: usize = self.primes[k + n];
        proof {
            self@.lemma_extended_wf(n as int);
            self@.lemma_strikers(n as int);
        }
        let low: usize = p * p;
        let high: usize = q * q;
        let flags = sieve_window(&self.primes, k + n, low, high - low);
        proof {
            assert forall|j: int| 0 <= j < flags.len() implies #[trigger] flags@[j] == is_prime(
                low + j,
            ) by {
                lemma_window_exact(self.primes@, k + n, q as int, low + j);
            }
        }
        append_survivors(&mut self.primes, &flags, low);
        self.end_segment = k + n;
    }

    /// Grows the cache by the same window as `extend_at_most_n_segments`,
    /// with the striking spread over a pool of workers, one task per known
    /// prime; the survivors are read and appended by the caller's thread
    /// after all tasks have ended.
    pub fn extend_at_most_n_segments_threaded(&mut self, n: usize)
        requires
            old(self)@.wf(),
            old(self)@.can_extend_by(n as int),
        ensures
            final(self)@ == old(self)@.extended_by(n as int),
            final(self)@.wf(),
    {
        let k: usize = self.end_segment;
        let len: usize = self.primes.len();
        assert(k + n < len);
        let p: usize = self.primes[k];
        let q: usize = self.primes[k + n];
        proof {
            self@.lemma_extended_wf(n as int);
            self@.lemma_strikers(n as int);
        }
        let low: usize = p * p;
        let high: usize = q * q;
        let window_len: usize = high - low;
        let mut flags: Vec<bool> = vec![true; window_len];
        strike_in_parallel(&mut flags, &self.primes, k + n, low);
        proof {
            assert forall|j: int| 0 <= j < flags.len() implies #[trigger] flags@[j] == is_prime(
                low + j,
            ) by {
                lemma_window_exact(self.primes@, k + n, q as int, low + j);
            }
        }
        append_survivors(&mut self.primes, &flags, low);
        self.end_segment = k + n;
    }

    /// One growth step of the configured width.
    pub fn extend(&mut self)
        requires
            old(self)@.wf(),
            old(self)@.can_extend_by(old(self)@.target),
        ensures
            final(self)@ == old(self)@.extended_by(old(self)@.target),
            final(self)@.wf(),
    {
        self.extend_at_most_n_segments(self.extend_at_most_n_segments_target);
    }

    /// Grows by the configured width until the largest prime is at least `n`
    /// or no further step is possible, and says which.
    fn grow_to_value(&mut self, n: usize) -> (reached: bool)
        requires
            old(self)@.wf(),
        ensures
            final(self)@ == old(self)@.grown_to_value(n as int),
            final(self)@.wf(),
            reached == (final(self)@.last() >= n),
    {
        let mut reached: bool = *self.most_recent_prime_unchecked() >= n;
        let mut open: bool = !reached && self.can_extend_by(self.extend_at_most_n_segments_target);
        while open
            invariant
                self@.wf(),
                self@.grown_to_value(n as int) == old(self)@.grown_to_value(n as int),
                reached == (self@.last() >= n),
                open == (!reached && self@.can_extend_by(self@.target)),
            decreases usize::MAX - self.primes@[self.end_segment as int],
        {
            proof {
                self@.lemma_cursor_moves(self@.target);
            }
            self.extend();
            reached = *self.most_recent_prime_unchecked() >= n;
            open = !reached && self.can_extend_by(self.extend_at_most_n_segments_target);
        }
        reached
    }

    /// Grows by the configured width until the cache holds an entry of index
    /// `index` or no further step is possible, and says which.
    fn grow_to_index(&mut self, index: usize) -> (reached: bool)
        requires
            old(self)@.wf(),
        ensures
            final(self)@ == old(self)@.grown_to_len(index + 1),
            final(self)@.wf(),
            reached == (final(self)@.primes.len() > index),
    {
        let mut reached: bool = self.primes.len() > index;
        let mut open: bool = !reached && self.can_extend_by(self.extend_at_most_n_segments_target);
        while open
            invariant
                self@.wf(),
                self@.grown_to_len(index + 1) == old(self)@.grown_to_len(index + 1),
                reached == (self@.primes.len() > index),
                open == (!reached && self@.can_extend_by(self@.target)),
            decreases usize::MAX - self.primes@[self.end_segment as int],
        {
            proof {
                self@.lemma_cursor_moves(self@.target);
            }
            self.extend();
            reached = self.primes.len() > index;
            open = !reached && self.can_extend_by(self.extend_at_most_n_segments_target);
        }
        reached
    }

    /// The number of primes up to and including `n`, for a caller who knows
    /// that the cache is valid and can grow far enough.
    pub fn count_primes_less_or_equal_unchecked(&mut self, n: usize) -> (count: usize)
        requires
            old(self)@.wf(),
            old(self)@.grown_to_value(n as int).last() >= n,
        ensures
            final(self)@ == old(self)@.grown_to_value(n as int),
            final(self)@.wf(),
            old(self)@.primes.is_prefix_of(final(self)@.primes),
            count == prime_count(n as int),
    {
        proof {
            self@.lemma_grown_to_value(n as int);
        }
        self.grow_to_value(n);
        self.count_in_cache(n)
    }

    /// The number of primes up to and including `n`; `None` where the cache
    /// is empty, or where it cannot grow until it holds a prime that is at
    /// least `n`.
    pub fn count_primes_less_or_equal(&mut self, n: usize) -> (count: Option<usize>)
        requires
            old(self).primes@.len() > 0 ==> old(self)@.wf(),
        ensures
            old(self).primes@.len() == 0 ==> count is None && *final(self) == *old(self),
            old(self).primes@.len() > 0 ==> {
                &&& final(self)@ == old(self)@.grown_to_value(n as int)
                &&& final(self)@.wf()
                &&& old(self)@.primes.is_prefix_of(final(self)@.primes)
                &&& count == if final(self)@.last() >= n {
                    Some(prime_count(n as int) as usize)
                } else {
                    None
                }
            },
            count matches Some(c) ==> c == prime_count(n as int),
    {
        if self.primes.len() == 0 {
            return None;
        }
        proof {
            self@.lemma_grown_to_value(n as int);
        }
        if self.grow_to_value(n) {
            Some(self.count_primes_less_or_equal_unchecked(n))
        } else {
            None
        }
    }

    /// The number of cached primes up to and including `n`, by binary search.
    fn count_in_cache(&self, n: usize) -> (count: usize)
        requires
            self@.wf(),
            self@.last() >= n,
        ensures
            count == prime_count(n as int),
    {
        proof {
            lemma_primes_between(0, self@.limit());
        }
        let count = bisect_right(&self.primes, n);
        proof {
            lemma_count_in_list(self@.limit(), n as int, count as int);
        }
        count
    }

    /// The first `n` primes; `None` where the cache cannot grow until it
    /// holds that many.
    pub fn first_n_primes(&mut self, n: usize) -> (first: Option<&[usize]>)
        requires
            old(self)@.wf(),
        ensures
            final(self)@ == old(self)@.grown_to_len(n as int),
            final(self)@.wf(),
            old(self)@.primes.is_prefix_of(final(self)@.primes),
            first is Some <==> final(self)@.primes.len() >= n,
            first matches Some(list) ==> {
                &&& list@ == final(self)@.primes.take(n as int)
                &&& strictly_increasing(list@)
                &&& forall|i: int| 0 <= i < n ==> is_nth_prime(#[trigger] list@[i] as int, i)
            },
    {
        self.calculate_first_n_primes_exact(n)
    }

    /// The first `n` primes, and no more of the cache than those; `None`
    /// where the cache cannot grow until it holds that many.
    pub fn calculate_first_n_primes_exact(&mut self, n: usize) -> (first: Option<&[usize]>)
        requires
            old(self)@.wf(),
        ensures
            final(self)@ == old(self)@.grown_to_len(n as int),
            final(self)@.wf(),
            old(self)@.primes.is_prefix_of(final(self)@.primes),
            first is Some <==> final(self)@.primes.len() >= n,
            first matches Some(list) ==> {
                &&& list@ == final(self)@.primes.take(n as int)
                &&& strictly_increasing(list@)
                &&& forall|i: int| 0 <= i < n ==> is_nth_prime(#[trigger] list@[i] as int, i)
            },
    {
        proof {
            self@.lemma_grown_to_len(n as int);
        }
        let reached: bool = if n == 0 {
            true
        } else {
            self.grow_to_index(n - 1)
        };
        if reached {
            let list = vstd::slice::slice_subrange(self.primes.as_slice(), 0, n);
            proof {
                lemma_primes_between(0, self@.limit());
                assert(list@ =~= self@.primes.take(n as int));
                assert forall|i: int| 0 <= i < n implies is_nth_prime(
                    #[trigger] list@[i] as int,
                    i,
                ) by {
                    lemma_entry_is_nth_prime(self@.limit(), i);
                }
            }
            Some(list)
        } else {
            None
        }
    }

    /// The prime of index `n`, counted from zero; `None` where the cache
    /// cannot grow until it holds it.
    pub fn nth_prime(&mut self, n: usize) -> (prime: Option<usize>)
        requires
            old(self)@.wf(),
        ensures
            final(self)@ == old(self)@.grown_to_len(n + 1),
            final(self)@.wf(),
            old(self)@.primes.is_prefix_of(final(self)@.primes),
            prime == if final(self)@.primes.len() > n {
                Some(final(self)@.primes[n as int])
            } else {
                None
            },
            prime matches Some(p) ==> is_nth_prime(p as int, n as int),
    {
        proof {
            self@.lemma_grown_to_len(n + 1);
        }
        if self.grow_to_index(n) {
            proof {
                lemma_entry_is_nth_prime(self@.limit(), n as int);
            }
            Some(self.primes[n])
        } else {
            None
        }
    }
}

} // verus!
