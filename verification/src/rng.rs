use vstd::prelude::*;
use rand::Rng;

verus! {

/// Relies on `rand::thread_rng` and `rand::Rng::gen_range`: sampling from the
/// integer range `lo..hi` returns a value that is at least `lo` and below
/// `hi`, and panics only when the range is empty, which the precondition
/// rules out. Nothing more is assumed of the draw: callers must be correct
/// for every value in the range.
#[verifier::external_body]
pub(crate) fn random_in(lo: u32, hi: u32) -> (r: u32)
    requires
        lo < hi,
    ensures
        lo <= r < hi,
{
    rand::thread_rng().gen_range(lo..hi)
}

} // verus!
