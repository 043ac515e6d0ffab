//! The one place where chance enters the library.

use rand::Rng;
use vstd::prelude::*;

verus! {

/// Draws a number at random: one call of `Rng::gen_range` on the generator
/// that `rand::thread_rng` hands out.
///
/// Believed, not proved: `gen_range(low, high)` returns a value that is at
/// least `low` and less than `high`. It panics where `low >= high`, which the
/// precondition rules out. `thread_rng` panics where the operating system has
/// no seed to give; no precondition can rule that out. Nothing is said of
/// which value comes back: two calls with the same bounds may differ.
#[verifier::external_body]
pub(crate) fn random_in_range(low: usize, high: usize) -> (drawn: usize)
    requires
        low < high,
    ensures
        low <= drawn < high,
{
    rand::thread_rng().gen_range(low, high)
}

} // verus!
