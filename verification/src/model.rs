//! The cache as a mathematical value: the list of primes found so far, the
//! cursor of the next growth step and the configured step width, with the
//! growth step and the growth that a query asks for as functions on it.

use vstd::prelude::*;
use crate::primality::{
    is_prime, lemma_primes_between, lemma_primes_between_split, primes_below, primes_between,
};
use crate::window::strikers_are_primes_below;

verus! {

/// What a sieve holds, as plain mathematics.
pub struct SieveState {
    /// The primes found so far, ascending.
    pub primes: Seq<usize>,
    /// Index of the prime whose square is where the next window starts.
    pub end_segment: int,
    /// How many primes further the cursor moves in one growth step.
    pub target: int,
}

impl SieveState {
    /// The state every sieve starts from: the primes below nine, the cursor
    /// on three, one prime per growth step.
    pub open spec fn seed() -> SieveState {
        SieveState { primes: seq![2usize, 3usize, 5usize, 7usize], end_segment: 1, target: 1 }
    }

    /// The square of the prime under the cursor: everything below it has been
    /// sieved.
    pub open spec fn limit(self) -> int {
        (self.primes[self.end_segment] as int) * (self.primes[self.end_segment] as int)
    }

    /// The cursor is on an entry past the first, the step width is positive,
    /// and the list is exactly the primes below `limit()`.
    pub open spec fn wf(self) -> bool {
        &&& 1 <= self.end_segment < self.primes.len()
        &&& 1 <= self.target
        &&& self.limit() <= usize::MAX
        &&& self.primes == primes_below(self.limit())
    }

    /// The largest prime found so far.
    pub open spec fn last(self) -> int {
        self.primes[self.primes.len() - 1] as int
    }

    /// A growth step of `n` primes is possible: the prime that bounds its
    /// window is in the list and its square fits a machine word.
    pub open spec fn can_extend_by(self, n: int) -> bool {
        &&& 0 <= n
        &&& self.end_segment + n < self.primes.len()
        &&& (self.primes[self.end_segment + n] as int) * (self.primes[self.end_segment + n] as int)
            <= usize::MAX
    }

    /// The state after a growth step of `n` primes: the primes of the window
    /// from `limit()` up to, and without, the square of the prime `n` places
    /// past the cursor are appended, and the cursor moves onto that prime.
    pub open spec fn extended_by(self, n: int) -> SieveState {
        let q = self.primes[self.end_segment + n] as int;
        SieveState {
            primes: self.primes + primes_between(self.limit(), q * q),
            end_segment: self.end_segment + n,
            target: self.target,
        }
    }

    /// The state in which a query for the primes up to `n` leaves the cache:
    /// it grows by its step width until its largest prime is at least `n`, or
    /// until no further step is possible.
    pub open spec fn grown_to_value(self, n: int) -> SieveState
        decreases usize::MAX - self.primes[self.end_segment],
    {
        if !self.wf() || self.last() >= n || !self.can_extend_by(self.target) {
            self
        } else {
            proof {
                self.lemma_cursor_moves(self.target);
            }
            self.extended_by(self.target).grown_to_value(n)
        }
    }

    /// The state in which a query for `n` primes leaves the cache: it grows by
    /// its step width until it holds at least `n` primes, or until no further
    /// step is possible.
    pub open spec fn grown_to_len(self, n: int) -> SieveState
        decreases usize::MAX - self.primes[self.end_segment],
    {
        if !self.wf() || self.primes.len() >= n || !self.can_extend_by(self.target) {
            self
        } else {
            proof {
                self.lemma_cursor_moves(self.target);
            }
            self.extended_by(self.target).grown_to_len(n)
        }
    }

    /// The state a sieve with step width `t` is constructed in: from the
    /// current one it grows one prime at a time until a step of `t` primes
    /// has its bounding prime in the list, or until no further step is
    /// possible.
    pub open spec fn primed_for(self, t: int) -> SieveState
        decreases usize::MAX - self.primes[self.end_segment],
    {
        if !self.wf() || self.end_segment + t < self.primes.len() || !self.can_extend_by(1) {
            self
        } else {
            proof {
                self.lemma_cursor_moves(1);
            }
            self.extended_by(1).primed_for(t)
        }
    }

    /// The seed is a valid state.
    pub proof fn lemma_seed_wf()
        ensures
            Self::seed().wf(),
    {
        assert(is_prime(2));
        assert(is_prime(3));
        assert(is_prime(5)) by {
            assert forall|d: int| 2 <= d < 5 implies #[trigger] (5int % d) != 0 by {
                assert(d == 2 || d == 3 || d == 4);
            }
        }
        assert(is_prime(7)) by {
            assert forall|d: int| 2 <= d < 7 implies #[trigger] (7int % d) != 0 by {
                assert(d == 2 || d == 3 || d == 4 || d == 5 || d == 6);
            }
        }
        assert(!is_prime(4)) by {
            assert(4int % 2 == 0);
        }
        assert(!is_prime(6)) by {
            assert(6int % 2 == 0);
        }
        assert(!is_prime(8)) by {
            assert(8int % 2 == 0);
        }
        reveal_with_fuel(primes_between, 10);
        assert(primes_below(9) =~= seq![2usize, 3usize, 5usize, 7usize]);
    }

    /// A growth step leaves the list as exactly the primes below the new
    /// limit, which is no smaller than the old one.
    pub proof fn lemma_extended_wf(self, n: int)
        requires
            self.wf(),
            self.can_extend_by(n),
        ensures
            self.extended_by(n).wf(),
            self.limit() <= self.extended_by(n).limit(),
            self.extended_by(n).limit() == (self.primes[self.end_segment + n] as int) * (
            self.primes[self.end_segment + n] as int),
    {
        let p = self.primes[self.end_segment] as int;
        let q = self.primes[self.end_segment + n] as int;
        lemma_primes_between(0, self.limit());
        assert(p <= q);
        assert(p * p <= q * q) by (nonlinear_arith)
            requires
                0 <= p <= q,
        ;
        lemma_primes_between_split(0, p * p, q * q);
    }

    /// Before a growth step of `n` primes, the entries in front of the prime
    /// that bounds the window are exactly the primes below it, and that prime
    /// lies below the start of the window.
    pub proof fn lemma_strikers(self, n: int)
        requires
            self.wf(),
            self.can_extend_by(n),
        ensures
            strikers_are_primes_below(
                self.primes,
                self.end_segment + n,
                self.primes[self.end_segment + n] as int,
            ),
            2 <= self.primes[self.end_segment + n] < self.limit(),
    {
        let q = self.primes[self.end_segment + n] as int;
        let count = self.end_segment + n;
        lemma_primes_between(0, self.limit());
        assert(is_prime(q));
        assert forall|f: int| is_prime(f) && f < q implies exists|i: int|
            0 <= i < count && #[trigger] self.primes[i] == f by {
            let i = choose|i: int| 0 <= i < self.primes.len() && #[trigger] self.primes[i] == f;
            if i > count {
                assert(self.primes[count] < self.primes[i]);
            }
        }
    }

    /// A growth step of at least one prime puts the cursor on a larger prime.
    pub proof fn lemma_cursor_moves(self, n: int)
        requires
            self.wf(),
            self.can_extend_by(n),
            1 <= n,
        ensures
            self.extended_by(n).primes[self.extended_by(n).end_segment] == self.primes[self.end_segment
                + n],
            self.primes[self.end_segment] < self.primes[self.end_segment + n],
    {
        lemma_primes_between(0, self.limit());
    }

    /// Where a query for the primes up to `n` leaves the cache: in a valid
    /// state that keeps what was there, that the same query would leave
    /// untouched, and in which the largest prime has reached `n` unless no
    /// further step is possible.
    pub proof fn lemma_grown_to_value(self, n: int)
        requires
            self.wf(),
        ensures
            self.grown_to_value(n).wf(),
            self.grown_to_value(n).target == self.target,
            self.grown_to_value(n).end_segment >= self.end_segment,
            self.primes.is_prefix_of(self.grown_to_value(n).primes),
            self.grown_to_value(n).grown_to_value(n) == self.grown_to_value(n),
            self.grown_to_value(n).last() >= n || !self.grown_to_value(n).can_extend_by(
                self.target,
            ),
        decreases usize::MAX - self.primes[self.end_segment],
    {
        if self.last() >= n || !self.can_extend_by(self.target) {
        } else {
            self.lemma_cursor_moves(self.target);
            self.lemma_extended_wf(self.target);
            self.extended_by(self.target).lemma_grown_to_value(n);
        }
    }

    /// A query for the primes up to `a` followed by one for the primes up to
    /// a larger `b` leaves the cache where the second alone would.
    pub proof fn lemma_grown_to_value_in_turn(self, a: int, b: int)
        requires
            self.wf(),
            a <= b,
        ensures
            self.grown_to_value(a).grown_to_value(b) == self.grown_to_value(b),
        decreases usize::MAX - self.primes[self.end_segment],
    {
        if self.last() >= a || !self.can_extend_by(self.target) {
        } else {
            self.lemma_cursor_moves(self.target);
            self.lemma_extended_wf(self.target);
            self.extended_by(self.target).lemma_grown_to_value_in_turn(a, b);
        }
    }

    /// Where a query for `n` primes leaves the cache: in a valid state that
    /// keeps what was there, that the same query would leave untouched, and
    /// that holds `n` primes unless no further step is possible.
    pub proof fn lemma_grown_to_len(self, n: int)
        requires
            self.wf(),
        ensures
            self.grown_to_len(n).wf(),
            self.grown_to_len(n).target == self.target,
            self.grown_to_len(n).end_segment >= self.end_segment,
            self.primes.is_prefix_of(self.grown_to_len(n).primes),
            self.grown_to_len(n).grown_to_len(n) == self.grown_to_len(n),
            self.grown_to_len(n).primes.len() >= n || !self.grown_to_len(n).can_extend_by(
                self.target,
            ),
        decreases usize::MAX - self.primes[self.end_segment],
    {
        if self.primes.len() >= n || !self.can_extend_by(self.target) {
        } else {
            self.lemma_cursor_moves(self.target);
            self.lemma_extended_wf(self.target);
            self.extended_by(self.target).lemma_grown_to_len(n);
        }
    }

    /// Where construction for step width `t` leaves the cache: in a valid
    /// state that keeps what was there, and from which a step of `t` primes
    /// has its bounding prime in the list unless no single step is possible.
    pub proof fn lemma_primed_for(self, t: int)
        requires
            self.wf(),
        ensures
            self.primed_for(t).wf(),
            self.primed_for(t).target == self.target,
            self.primed_for(t).end_segment >= self.end_segment,
            self.primes.is_prefix_of(self.primed_for(t).primes),
            self.primed_for(t).end_segment + t < self.primed_for(t).primes.len()
                || !self.primed_for(t).can_extend_by(1),
        decreases usize::MAX - self.primes[self.end_segment],
    {
        if self.end_segment + t < self.primes.len() || !self.can_extend_by(1) {
        } else {
            self.lemma_cursor_moves(1);
            self.lemma_extended_wf(1);
            self.extended_by(1).lemma_primed_for(t);
        }
    }
}

} // verus!
