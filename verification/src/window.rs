//! One window of the sieve: a flag per integer of the window, struck where a
//! known prime divides the integer, and the survivors read back as primes.

use vstd::prelude::*;
use vstd::arithmetic::div_mod::{
    lemma_fundamental_div_mod, lemma_fundamental_div_mod_converse, lemma_mod_multiples_basic,
};
use crate::primality::{is_prime, lemma_small_prime_factor, primes_between};

verus! {

/// One of the first `count` entries of `strikers` divides `x`.
pub open spec fn struck(strikers: Seq<usize>, count: int, x: int) -> bool {
    exists|i: int| 0 <= i < count && x % (#[trigger] strikers[i] as int) == 0
}

/// The first `count` entries of `strikers` are exactly the primes below `q`.
pub open spec fn strikers_are_primes_below(strikers: Seq<usize>, count: int, q: int) -> bool {
    &&& 0 <= count <= strikers.len()
    &&& forall|i: int| 0 <= i < count ==> is_prime(#[trigger] strikers[i] as int) && strikers[i] < q
    &&& forall|f: int|
        is_prime(f) && f < q ==> exists|i: int| 0 <= i < count && #[trigger] strikers[i] == f
}

/// The integer `j` places into the window at `low` is a multiple of `pk`.
pub open spec fn multiple_at(low: int, j: int, pk: int) -> bool {
    (low + j) % pk == 0
}

/// Past a multiple of `m`, the remainder is the distance walked, up to the
/// next multiple.
proof fn lemma_offset_remainder(a: int, m: int, d: int)
    requires
        0 < m,
        a % m == 0,
        0 <= d < m,
    ensures
        (a + d) % m == d,
        (a + m) % m == 0,
{
    lemma_fundamental_div_mod(a, m);
    assert(a + d == (a / m) * m + d) by (nonlinear_arith)
        requires
            a == m * (a / m) + a % m,
            a % m == 0,
    ;
    lemma_fundamental_div_mod_converse(a + d, m, a / m, d);
    assert(a + m == (a / m + 1) * m) by (nonlinear_arith)
        requires
            a == m * (a / m) + a % m,
            a % m == 0,
    ;
    lemma_mod_multiples_basic(a / m + 1, m);
}

/// Between the prime that bounds a window and its square, striking with all
/// smaller primes leaves the primes and nothing else.
pub proof fn lemma_window_exact(strikers: Seq<usize>, count: int, q: int, x: int)
    requires
        strikers_are_primes_below(strikers, count, q),
        2 <= q <= x < q * q,
    ensures
        struck(strikers, count, x) <==> !is_prime(x),
{
    if struck(strikers, count, x) {
        let i = choose|i: int| 0 <= i < count && x % (#[trigger] strikers[i] as int) == 0;
        assert(is_prime(strikers[i] as int));
        assert(x % (strikers[i] as int) == 0);
    }
    if !is_prime(x) {
        let f = lemma_small_prime_factor(x);
        assert(f < q) by (nonlinear_arith)
            requires
                f * f <= x,
                x < q * q,
                0 <= f,
                0 <= q,
        ;
        let i = choose|i: int| 0 <= i < count && #[trigger] strikers[i] == f;
        assert(x % (strikers[i] as int) == 0);
    }
}

/// How far the first multiple of `pk` at or above `low` lies above `low`.
pub fn first_multiple_offset(low: usize, pk: usize) -> (offset: usize)
    requires
        1 <= pk,
    ensures
        offset < pk,
        multiple_at(low as int, offset as int, pk as int),
        forall|j: int| 0 <= j < offset ==> !#[trigger] multiple_at(low as int, j, pk as int),
{
    let r: usize = low % pk;
    let offset: usize = if r == 0 {
        0
    } else {
        pk - r
    };
    proof {
        lemma_fundamental_div_mod(low as int, pk as int);
        lemma_mod_multiples_basic(low as int / pk as int, pk as int);
        assert(low - r == (low as int / pk as int) * pk) by (nonlinear_arith)
            requires
                low == pk * (low as int / pk as int) + r,
        ;
        assert forall|j: int| 0 <= j < offset implies !#[trigger] multiple_at(
            low as int,
            j,
            pk as int,
        ) by {
            lemma_offset_remainder(low - r, pk as int, r + j);
        }
        lemma_offset_remainder(low - r, pk as int, 0);
    }
    offset
}

/// Clears the flag of every multiple of `pk` in the window that starts at
/// `low`; the other flags stay as they were.
pub fn strike_multiples(flags: &mut Vec<bool>, low: usize, pk: usize)
    requires
        1 <= pk,
        low + old(flags).len() <= usize::MAX,
    ensures
        final(flags).len() == old(flags).len(),
        forall|j: int|
            0 <= j < old(flags).len() ==> #[trigger] final(flags)@[j] == (old(flags)@[j]
                && !multiple_at(low as int, j, pk as int)),
{
    let len: usize = flags.len();
    let mut x: usize = first_multiple_offset(low, pk);
    let mut more: bool = x < len;
    let ghost mut done: int = if more {
        x as int
    } else {
        len as int
    };
    while more
        invariant
            flags.len() == len,
            len == old(flags).len(),
            1 <= pk,
            low + len <= usize::MAX,
            0 <= done <= len,
            more ==> done == x && x < len && (low + x) % (pk as int) == 0,
            !more ==> done == len,
            forall|j: int|
                0 <= j < done ==> #[trigger] flags@[j] == (old(flags)@[j] && !multiple_at(
                    low as int,
                    j,
                    pk as int,
                )),
            forall|j: int| done <= j < len ==> #[trigger] flags@[j] == old(flags)@[j],
        decreases len - done,
    {
        flags.set(x, false);
        let ghost at: int = x as int;
        if pk < len - x {
            x = x + pk;
            proof {
                done = x as int;
            }
        } else {
            more = false;
            proof {
                done = len as int;
            }
        }
        proof {
            assert forall|j: int| at < j < done implies !#[trigger] multiple_at(
                low as int,
                j,
                pk as int,
            ) by {
                lemma_offset_remainder(low + at, pk as int, j - at);
            }
            lemma_offset_remainder(low + at, pk as int, 0);
        }
    }
}

/// Sieves the window of `len` integers that starts at `low` with the first
/// `count` entries of `primes`: the flag of an integer stays set exactly
/// where none of them divides it.
pub fn sieve_window(primes: &Vec<usize>, count: usize, low: usize, len: usize) -> (flags: Vec<bool>)
    requires
        count <= primes.len(),
        forall|i: int| 0 <= i < count ==> 1 <= #[trigger] primes@[i],
        low + len <= usize::MAX,
    ensures
        flags.len() == len,
        forall|j: int| 0 <= j < len ==> #[trigger] flags@[j] == !struck(primes@, count as int, low + j),
{
    let mut flags: Vec<bool> = vec![true; len];
    let mut i: usize = 0;
    while i < count
        invariant
            i <= count <= primes.len(),
            flags.len() == len,
            low + len <= usize::MAX,
            forall|t: int| 0 <= t < count ==> 1 <= #[trigger] primes@[t],
            forall|j: int| 0 <= j < len ==> #[trigger] flags@[j] == !struck(primes@, i as int, low + j),
        decreases count - i,
    {
        let ghost before = flags@;
        strike_multiples(&mut flags, low, primes[i]);
        proof {
            assert forall|j: int| 0 <= j < len implies #[trigger] flags@[j] == !struck(
                primes@,
                i + 1,
                low + j,
            ) by {
                lemma_struck_step(primes@, i as int, low + j);
                assert(flags@[j] == (before[j] && (low + j) % (primes@[i as int] as int) != 0));
            }
        }
        i = i + 1;
    }
    flags
}

/// One more striker strikes what was struck before and its own multiples.
proof fn lemma_struck_step(strikers: Seq<usize>, count: int, x: int)
    requires
        0 <= count,
    ensures
        struck(strikers, count + 1, x) <==> struck(strikers, count, x) || x % (
        strikers[count] as int) == 0,
{
    if struck(strikers, count + 1, x) {
        let i = choose|i: int| 0 <= i < count + 1 && x % (#[trigger] strikers[i] as int) == 0;
        if i < count {
            assert(struck(strikers, count, x));
        }
    }
    if struck(strikers, count, x) {
        let i = choose|i: int| 0 <= i < count && x % (#[trigger] strikers[i] as int) == 0;
        assert(0 <= i < count + 1 && x % (strikers[i] as int) == 0);
    }
    if x % (strikers[count] as int) == 0 {
        assert(0 <= count < count + 1 && x % (strikers[count] as int) == 0);
    }
}

/// Appends to `primes` the integers of the window at `low` whose flag is set,
/// in ascending order.
pub fn append_survivors(primes: &mut Vec<usize>, flags: &Vec<bool>, low: usize)
    requires
        low + flags.len() <= usize::MAX,
        forall|j: int| 0 <= j < flags.len() ==> #[trigger] flags@[j] == is_prime(low + j),
    ensures
        final(primes)@ == old(primes)@ + primes_between(low as int, low + flags.len()),
{
    let len: usize = flags.len();
    let mut j: usize = 0;
    while j < len
        invariant
            j <= len,
            len == flags.len(),
            low + len <= usize::MAX,
            forall|t: int| 0 <= t < len ==> #[trigger] flags@[t] == is_prime(low + t),
            primes@ =~= old(primes)@ + primes_between(low as int, low + j),
        decreases len - j,
    {
        if flags[j] {
            primes.push(low + j);
        }
        proof {
            assert(flags@[j as int] == is_prime(low + j));
        }
        j = j + 1;
    }
}

} // verus!
