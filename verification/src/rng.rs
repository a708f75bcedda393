//! The one door to the thread-local random number generator.

use rand::Rng;
use vstd::prelude::*;

verus! {

/// Draws an integer from the half-open range `lo..hi` with
/// `rand::Rng::gen_range` on `rand::thread_rng()`. The generator documents
/// that the value lies in the range and that an empty range panics, so the
/// range must hold at least one value. Which value comes back is left open.
#[verifier::external_body]
pub(crate) fn uniform(lo: i64, hi: i64) -> (r: i64)
    requires
        lo < hi,
    ensures
        lo <= r < hi,
{
    rand::thread_rng().gen_range(lo..hi)
}

} // verus!
