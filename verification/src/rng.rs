//! The injected randomness primitive: a single uniform-draw wrapper around
//! the thread-local generator of the `rand` crate.

use vstd::prelude::*;

verus! {

/// The thread-local generator type of the `rand` crate, declared opaque
/// so that values of it can be threaded through verified code.
#[verifier::external_type_specification]
#[verifier::external_body]
pub struct ExThreadRng(rand::rngs::ThreadRng);

/// Relies on rand's `Rng::gen_range` with the range `0..bound`: it returns
/// a value of that half-open range, and panics only when the range is
/// empty. Nothing more is assumed of the value: it is random.
#[verifier::external_body]
pub fn draw_below(rng: &mut rand::rngs::ThreadRng, bound: u64) -> (r: u64)
    requires
        bound >= 1,
    ensures
        r < bound,
{
    rand::Rng::gen_range(rng, 0..bound)
}

} // verus!
