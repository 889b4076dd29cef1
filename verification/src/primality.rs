//! Primes as mathematics: what a prime is, the ascending list of the primes in
//! a range, how many primes lie at or below a value, and the facts about them
//! that the sieve relies on.

use vstd::prelude::*;
use vstd::arithmetic::div_mod::{lemma_fundamental_div_mod, lemma_mod_multiples_basic};

verus! {

/// `x` is at least two and no `d` with `2 <= d < x` divides it.
pub open spec fn is_prime(x: int) -> bool {
    2 <= x && forall|d: int| 2 <= d < x ==> #[trigger] (x % d) != 0
}

/// The primes `x` with `lo <= x < hi`, in ascending order.
pub open spec fn primes_between(lo: int, hi: int) -> Seq<usize>
    decreases hi - lo,
{
    if hi <= lo {
        Seq::empty()
    } else if is_prime(hi - 1) {
        primes_between(lo, hi - 1).push((hi - 1) as usize)
    } else {
        primes_between(lo, hi - 1)
    }
}

/// The primes below `bound`, in ascending order.
pub open spec fn primes_below(bound: int) -> Seq<usize> {
    primes_between(0, bound)
}

/// The number of primes `x` with `x <= n`.
pub open spec fn prime_count(n: int) -> nat
    decreases n,
{
    if n < 2 {
        0
    } else if is_prime(n) {
        prime_count(n - 1) + 1
    } else {
        prime_count(n - 1)
    }
}

/// Each entry of `s` is smaller than every later one.
pub open spec fn strictly_increasing(s: Seq<usize>) -> bool {
    forall|i: int, j: int| 0 <= i < j < s.len() ==> s[i] < s[j]
}

/// A composite number has a prime factor whose square does not exceed it.
pub proof fn lemma_small_prime_factor(x: int) -> (f: int)
    requires
        2 <= x,
        !is_prime(x),
    ensures
        is_prime(f),
        f * f <= x,
        x % f == 0,
    decreases x,
{
    let d = choose|d: int| 2 <= d < x && #[trigger] (x % d) == 0;
    let e = x / d;
    lemma_fundamental_div_mod(x, d);
    assert(x == d * e);
    assert(2 <= e < x) by (nonlinear_arith)
        requires
            x == d * e,
            2 <= d < x,
    ;
    lemma_mod_multiples_basic(d, e);
    assert(d * e == e * d) by (nonlinear_arith);
    let m = if d <= e { d } else { e };
    let k = if d <= e { e } else { d };
    assert(x == m * k) by (nonlinear_arith)
        requires
            x == d * e,
            (m == d && k == e) || (m == e && k == d),
    ;
    assert(m * m <= x) by (nonlinear_arith)
        requires
            x == m * k,
            2 <= m <= k,
    ;
    assert(x % m == 0);
    if is_prime(m) {
        m
    } else {
        let f = lemma_small_prime_factor(m);
        let j = m / f;
        lemma_fundamental_div_mod(m, f);
        assert(x == (j * k) * f) by (nonlinear_arith)
            requires
                x == m * k,
                m == f * j,
        ;
        lemma_mod_multiples_basic(j * k, f);
        assert(f * f <= x) by (nonlinear_arith)
            requires
                f * f <= m,
                m * m <= x,
                2 <= m,
        ;
        f
    }
}

/// What `primes_between` holds: primes of the range only, in strictly
/// ascending order, and every prime of the range.
pub proof fn lemma_primes_between(lo: int, hi: int)
    requires
        0 <= lo,
        hi <= usize::MAX + 1,
    ensures
        primes_between(lo, hi).len() <= if hi > lo { hi - lo } else { 0 },
        forall|i: int|
            0 <= i < primes_between(lo, hi).len() ==> {
                &&& is_prime(#[trigger] primes_between(lo, hi)[i] as int)
                &&& lo <= primes_between(lo, hi)[i] < hi
            },
        strictly_increasing(primes_between(lo, hi)),
        forall|x: int|
            lo <= x < hi && is_prime(x) ==> exists|i: int|
                0 <= i < primes_between(lo, hi).len() && #[trigger] primes_between(lo, hi)[i] == x,
    decreases hi - lo,
{
    if hi > lo {
        lemma_primes_between(lo, hi - 1);
        let shorter = primes_between(lo, hi - 1);
        let all = primes_between(lo, hi);
        assert forall|x: int| lo <= x < hi && is_prime(x) implies exists|i: int|
            0 <= i < all.len() && #[trigger] all[i] == x by {
            if x == hi - 1 {
                assert(all[all.len() - 1] == x);
            } else {
                let i = choose|i: int| 0 <= i < shorter.len() && #[trigger] shorter[i] == x;
                assert(all[i] == x);
            }
        }
    }
}

/// A range of primes read in two parts is the range read at once.
pub proof fn lemma_primes_between_split(lo: int, mid: int, hi: int)
    requires
        lo <= mid <= hi,
    ensures
        primes_between(lo, hi) =~= primes_between(lo, mid) + primes_between(mid, hi),
    decreases hi - mid,
{
    if hi > mid {
        lemma_primes_between_split(lo, mid, hi - 1);
    }
}

/// The list of the primes below `n + 1` has `prime_count(n)` entries.
pub proof fn lemma_prime_count(n: int)
    ensures
        primes_below(n + 1).len() == prime_count(n),
    decreases n,
{
    if n >= 1 {
        lemma_prime_count(n - 1);
    } else if n == 0 {
        assert(primes_between(0, 0).len() == 0);
    }
}

/// `p` is the prime that has exactly `i` primes below it: the prime of index
/// `i` when the primes are counted from zero.
pub open spec fn is_nth_prime(p: int, i: int) -> bool {
    is_prime(p) && prime_count(p) == i + 1
}

/// A larger value has no fewer primes at or below it.
pub proof fn lemma_prime_count_grows(a: int, b: int)
    requires
        a <= b,
    ensures
        prime_count(a) <= prime_count(b),
    decreases b - a,
{
    if a < b {
        lemma_prime_count_grows(a, b - 1);
    }
}

/// The entry of index `i` in the list of the primes below a bound is the
/// prime of index `i`.
pub proof fn lemma_entry_is_nth_prime(bound: int, i: int)
    requires
        bound <= usize::MAX + 1,
        0 <= i < primes_below(bound).len(),
    ensures
        is_nth_prime(primes_below(bound)[i] as int, i),
{
    let all = primes_below(bound);
    let p = all[i] as int;
    lemma_primes_between(0, bound);
    lemma_primes_between_split(0, p + 1, bound);
    lemma_prime_count(p);
    let head = primes_below(p + 1);
    assert(head[head.len() - 1] == all[i]);
    assert(all[head.len() - 1] == all[i]);
    if i < head.len() - 1 {
        assert(all[i] < all[head.len() - 1]);
    }
    if head.len() - 1 < i {
        assert(all[head.len() - 1] < all[i]);
    }
}

/// In the list of the primes below a bound, the place that parts the entries
/// up to `n` from the larger ones is the number of primes up to `n`.
pub proof fn lemma_count_in_list(bound: int, n: int, place: int)
    requires
        bound <= usize::MAX + 1,
        0 <= n < bound,
        0 <= place <= primes_below(bound).len(),
        forall|i: int| 0 <= i < place ==> #[trigger] primes_below(bound)[i] <= n,
        forall|i: int| place <= i < primes_below(bound).len() ==> #[trigger] primes_below(bound)[i] > n,
    ensures
        place == prime_count(n),
{
    let all = primes_below(bound);
    let head = primes_below(n + 1);
    let tail = primes_between(n + 1, bound);
    lemma_primes_between_split(0, n + 1, bound);
    lemma_prime_count(n);
    lemma_primes_between(0, n + 1);
    lemma_primes_between(n + 1, bound);
    if place < head.len() {
        assert(all[place] == head[place]);
    }
    if place > head.len() {
        assert(all[head.len() as int] == tail[0]);
    }
}

} // verus!
