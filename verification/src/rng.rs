//! Trusted boundary to the random number generator.

use vstd::prelude::*;
use rand::Rng;

verus! {

/// Relies on `rand::thread_rng` and `rand::Rng::gen_range`: a sample drawn
/// from the nonempty range `lo..hi` lies within that range.
#[verifier::external_body]
pub(crate) fn sample_in_range(lo: u8, hi: u8) -> (r: u8)
    requires
        lo < hi,
    ensures
        lo <= r < hi,
{
    rand::thread_rng().gen_range(lo..hi)
}

} // verus!
