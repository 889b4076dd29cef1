//! Striking on flags that several workers share.

use vstd::prelude::*;
use std::sync::atomic::AtomicBool;
use std::sync::atomic::Ordering;
use crate::window::first_multiple_offset;

verus! {

/// Clears, with relaxed stores, the shared flag of every multiple of `pk` in
/// the window that starts at `low`. It walks the offsets that
/// `strike_multiples` walks; what the flags hold is beyond what can be stated
/// of them here.
pub(crate) fn strike_multiples_shared(flags: &Vec<AtomicBool>, low: usize, pk: usize)
    requires
        1 <= pk,
{
    let len: usize = flags.len();
    let mut x: usize = first_multiple_offset(low, pk);
    while x < len
        invariant
            len == flags.len(),
            1 <= pk,
        decreases len - x,
    {
        flags[x].store(false, Ordering::Relaxed);
        if pk < len - x {
            x = x + pk;
        } else {
            x = len;
        }
    }
}

} // verus!
