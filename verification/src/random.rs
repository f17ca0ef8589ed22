//! The random generator of a run, `rand::rngs::StdRng`, and the draws that the
//! library makes from it.
//!
//! Nothing in this file is proved. A draw has no value that could be stated
//! beforehand: its contract says only what holds of every outcome.

use rand::rngs::StdRng;
use rand::Rng;
use vstd::prelude::*;

verus! {

#[verifier::external_type_specification]
#[verifier::external_body]
pub struct ExStdRng(StdRng);

/// Calls `Rng::gen_range` with zero as the lower and `bound` as the upper
/// end. The call panics where the range is empty, so `bound` is positive; what
/// it returns lies in the range, the upper end excluded.
#[verifier::external_body]
pub(crate) fn pick_below(rng: &mut StdRng, bound: usize) -> (r: usize)
    requires
        bound > 0,
    ensures
        r < bound,
{
    rng.gen_range(0, bound)
}

/// Calls `Rng::gen` for one byte. Any byte may come.
#[verifier::external_body]
pub(crate) fn next_byte(rng: &mut StdRng) -> (b: u8) {
    rng.gen::<u8>()
}

} // verus!
