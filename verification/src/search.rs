//! Binary search in the sorted list of primes.

use vstd::prelude::*;

verus! {

/// No entry of `s` is larger than a later one.
pub open spec fn ascending(s: Seq<usize>) -> bool {
    forall|i: int, j: int| 0 <= i < j < s.len() ==> s[i] <= s[j]
}

/// `bisection::bisect_right` on a list of machine words: in an ascending list
/// it returns the place where `x` would be inserted behind its equals, so
/// that every entry in front of that place is at most `x` and every entry
/// from there on is greater.
#[verifier::external_body]
pub(crate) fn bisect_right(a: &Vec<usize>, x: usize) -> (place: usize)
    requires
        ascending(a@),
    ensures
        place <= a@.len(),
        forall|i: int| 0 <= i < place ==> #[trigger] a@[i] <= x,
        forall|i: int| place <= i < a@.len() ==> #[trigger] a@[i] > x,
{
    bisection::bisect_right(a.as_slice(), &x)
}

} // verus!
