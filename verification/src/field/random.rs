//! Random numbers of the `rand` crate.
use rand::Rng;
use vstd::prelude::*;

verus! {

/// `Rng::gen_range` on the thread-local generator, for the range from zero to
/// `bound`, which must not be empty: some number below `bound`.
#[verifier::external_body]
pub(crate) fn random_below(bound: u64) -> (r: u64)
    requires
        bound > 0,
    ensures
        r < bound,
{
    rand::thread_rng().gen_range(0..bound)
}

} // verus!
