//! The marking phase of a window spread over a pool of workers.

use vstd::prelude::*;
use std::sync::atomic::AtomicBool;
use rayon::iter::{IntoParallelRefIterator, ParallelIterator};
use crate::shared_flags::strike_multiples_shared;
use crate::window::struck;

verus! {

/// rayon's `par_iter().for_each` over the first `count` entries of `primes`:
/// the flags are shared as atomic booleans, one task per prime runs
/// `strike_multiples_shared` on them, and after rayon has joined all tasks
/// the flags are read back. The contract claims that each task ran to its end
/// before the call returns and that a flag is cleared exactly where one of
/// the tasks stored to it, that is at the multiples of its prime.
#[verifier::external_body]
pub(crate) fn strike_in_parallel(flags: &mut Vec<bool>, primes: &Vec<usize>, count: usize, low: usize)
    requires
        count <= primes.len(),
        forall|i: int| 0 <= i < count ==> 1 <= #[trigger] primes@[i],
        low + old(flags).len() <= usize::MAX,
    ensures
        final(flags).len() == old(flags).len(),
        forall|j: int|
            0 <= j < old(flags).len() ==> #[trigger] final(flags)@[j] == (old(flags)@[j] && !struck(
                primes@,
                count as int,
                low + j,
            )),
{
    let shared: Vec<AtomicBool> = flags.iter().map(|flag| AtomicBool::new(*flag)).collect();
    primes[..count].par_iter().for_each(|pk| strike_multiples_shared(&shared, low, *pk));
    *flags = shared.into_iter().map(AtomicBool::into_inner).collect();
}

} // verus!
