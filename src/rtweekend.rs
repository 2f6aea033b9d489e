//! Random integers for the randomised parts of scene construction.
use vstd::prelude::*;

verus! {

use rand::Rng;

/// Relies on rand's `Rng::gen_range` on `rand::thread_rng()`: the value lies in
/// the half-open range `min..max`. It panics on an empty range, which the
/// `requires` rules out.
#[verifier::external_body]
pub fn random_i32_1(min: i32, max: i32) -> (r: i32)
    requires
        min < max,
    ensures
        min <= r < max,
{
    rand::thread_rng().gen_range(min..max)
}

} // verus!
