//! Chance.
use vstd::prelude::*;

verus! {

/// `fastrand::u32` draws a number of a range, which must not be empty. Which number comes
/// is left to chance.
#[verifier::external_body]
pub(crate) fn draw_u32_below(limit: u32) -> (r: u32)
    requires
        limit > 0,
    ensures
        r < limit,
{
    fastrand::u32(0..limit)
}

/// `fastrand::u64` draws a number of a range, which must not be empty. Which number comes
/// is left to chance.
#[verifier::external_body]
pub(crate) fn draw_u64_below(limit: u64) -> (r: u64)
    requires
        limit > 0,
    ensures
        r < limit,
{
    fastrand::u64(0..limit)
}

} // verus!
