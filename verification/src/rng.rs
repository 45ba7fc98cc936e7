//! The one random draw the game makes: which piece falls next.

use vstd::prelude::*;

verus! {

/// Relies on rand's `Rng::gen_range` on `thread_rng`: it returns a value
/// drawn from the given inclusive range and panics only when the range is
/// empty, which the precondition rules out. Nothing more is assumed of
/// the draw than its bounds.
#[verifier::external_body]
pub(crate) fn rand_range(lo: u8, hi: u8) -> (r: u8)
    requires
        lo <= hi,
    ensures
        lo <= r <= hi,
{
    rand::Rng::gen_range(&mut rand::thread_rng(), lo..=hi)
}

} // verus!
