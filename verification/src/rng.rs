//! The one randomness source of the combat core: a uniform percent draw
//! for the Bernoulli status-effect trials.

use vstd::prelude::*;
use rand::Rng;

verus! {

/// Relies on `rand::thread_rng` and `rand::Rng::gen_range`:
/// `gen_range(1..100)` returns a uniformly distributed value of the
/// half-open range, so the draw is always in `1 ..= 99`. Nothing more is
/// assumed of it; every caller states what holds of each possible draw.
#[verifier::external_body]
pub(crate) fn roll_percent() -> (r: i32)
    ensures
        1 <= r <= 99,
{
    rand::thread_rng().gen_range(1..100)
}

} // verus!
