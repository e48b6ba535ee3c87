//! The process-wide randomness source.

use vstd::prelude::*;

verus! {

/// Draws a `u64` with `rand::random`. The draw is uniform over the whole
/// range of `u64`, so nothing is promised about the value returned.
#[verifier::external_body]
pub(crate) fn random_u64() -> u64 {
    rand::random::<u64>()
}

} // verus!
