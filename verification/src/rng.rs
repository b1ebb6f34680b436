//! The randomness the players draw on, behind one trusted wrapper.

use rand::Rng;
use vstd::prelude::*;

verus! {

/// Relies on `rand::Rng::gen_range` over `0..n`: a random index below `n`.
/// Nothing more is assumed of the draw than its range.
#[verifier::external_body]
pub fn gen_index(n: usize) -> (r: usize)
    requires
        n > 0,
    ensures
        r < n,
{
    rand::thread_rng().gen_range(0..n)
}

} // verus!
