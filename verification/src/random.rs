//! Chance.

use crate::bytes::Id32;
use rand::{Rng, RngCore};
use vstd::prelude::*;

verus! {

/// `Rng::gen_range` of the thread's generator: some number below `n`. The generator panics on an
/// empty range.
#[verifier::external_body]
pub(crate) fn random_below(n: u64) -> (r: u64)
    requires
        n > 0,
    ensures
        r < n,
{
    rand::thread_rng().gen_range(0..n)
}

/// `RngCore::fill_bytes` of the thread's generator: thirty-two bytes, of which nothing is claimed.
#[verifier::external_body]
pub(crate) fn random_id() -> Id32 {
    let mut id: Id32 = [0u8; 32];
    rand::thread_rng().fill_bytes(&mut id);
    id
}

} // verus!
