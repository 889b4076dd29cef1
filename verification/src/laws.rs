//! What holds of every cache, whatever was asked of it.

use vstd::prelude::*;
use crate::model::SieveState;
use crate::primality::{
    is_nth_prime, is_prime, lemma_entry_is_nth_prime, lemma_prime_count_grows,
    lemma_primes_between, lemma_primes_between_split, primes_below, strictly_increasing,
};

verus! {

/// A valid cache is strictly ascending, so nothing occurs in it twice; each
/// of its entries is prime; and it misses no prime up to its largest entry.
pub proof fn lemma_cache_is_the_primes(cache: SieveState)
    requires
        cache.wf(),
    ensures
        strictly_increasing(cache.primes),
        forall|i: int| 0 <= i < cache.primes.len() ==> is_prime(#[trigger] cache.primes[i] as int),
        forall|x: int|
            is_prime(x) && x <= cache.last() ==> exists|i: int|
                0 <= i < cache.primes.len() && #[trigger] cache.primes[i] == x,
{
    lemma_primes_between(0, cache.limit());
}

/// The entries of a valid cache are the smallest primes, in order: the entry
/// of index `i` is a prime with exactly `i` primes below it, and no other
/// number is.
pub proof fn lemma_entries_are_the_smallest_primes(cache: SieveState, i: int, other: int)
    requires
        cache.wf(),
        0 <= i < cache.primes.len(),
        is_nth_prime(other, i),
    ensures
        is_nth_prime(cache.primes[i] as int, i),
        other == cache.primes[i],
{
    let p = cache.primes[i] as int;
    lemma_entry_is_nth_prime(cache.limit(), i);
    if other < p {
        lemma_prime_count_grows(other, p - 1);
    }
    if p < other {
        lemma_prime_count_grows(p, other - 1);
    }
}

/// From the same cache and for the same number of primes, the growth step
/// that strikes on the caller's thread and the one that strikes on a pool of
/// workers end in the same cache: the primes below the square of the prime
/// that bounds the window.
pub proof fn lemma_extenders_agree(
    start: SieveState,
    n: int,
    after_sequential: SieveState,
    after_threaded: SieveState,
)
    requires
        start.wf(),
        start.can_extend_by(n),
        after_sequential == start.extended_by(n),
        after_threaded == start.extended_by(n),
    ensures
        after_sequential == after_threaded,
        after_threaded.primes == primes_below(
            (start.primes[start.end_segment + n] as int) * (start.primes[start.end_segment
                + n] as int),
        ),
{
    start.lemma_extended_wf(n);
}

/// Asking twice for the number of primes up to `n` changes nothing the
/// second time: the cache that the first query leaves is the one that the
/// second leaves, so the answer is the same, and the cache that was there
/// before is still its front part.
pub proof fn lemma_count_query_twice(cache: SieveState, n: int)
    requires
        cache.wf(),
    ensures
        cache.grown_to_value(n).grown_to_value(n) == cache.grown_to_value(n),
        cache.primes.is_prefix_of(cache.grown_to_value(n).primes),
        cache.primes.len() <= cache.grown_to_value(n).primes.len(),
{
    cache.lemma_grown_to_value(n);
}

/// A growth step of at least one prime moves the cursor forward, and no
/// growth step takes a prime out of the cache.
pub proof fn lemma_growth_is_monotone(cache: SieveState, n: int)
    requires
        cache.wf(),
        cache.can_extend_by(n),
    ensures
        1 <= n ==> cache.extended_by(n).end_segment > cache.end_segment,
        cache.extended_by(n).end_segment >= cache.end_segment,
        cache.primes.is_prefix_of(cache.extended_by(n).primes),
        cache.extended_by(n).primes.len() >= cache.primes.len(),
{
}

/// Windows meet without a gap and without an overlap: a growth step of `a`
/// primes followed by one of `b` primes ends in the same cache as a single
/// step of `a + b` primes over the whole range.
pub proof fn lemma_windows_join(cache: SieveState, a: int, b: int)
    requires
        cache.wf(),
        0 <= a,
        0 <= b,
        cache.can_extend_by(a + b),
    ensures
        cache.can_extend_by(a),
        cache.extended_by(a).can_extend_by(b),
        cache.extended_by(a).extended_by(b) == cache.extended_by(a + b),
{
    let p = cache.primes[cache.end_segment] as int;
    let m = cache.primes[cache.end_segment + a] as int;
    let q = cache.primes[cache.end_segment + a + b] as int;
    lemma_primes_between(0, cache.limit());
    assert(p <= m <= q);
    assert(p * p <= m * m <= q * q) by (nonlinear_arith)
        requires
            0 <= p <= m <= q,
    ;
    lemma_primes_between_split(p * p, m * m, q * q);
    let first = cache.extended_by(a);
    assert(first.primes[cache.end_segment + a + b] == cache.primes[cache.end_segment + a + b]);
    assert(first.primes[cache.end_segment + a] == cache.primes[cache.end_segment + a]);
    assert(first.extended_by(b).primes =~= cache.extended_by(a + b).primes);
}

} // verus!
