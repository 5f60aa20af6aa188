//! The random draws of the tile spawner, taken from the thread-local generator
//! of the `rand` crate. Nothing in this file is proved: the contracts state
//! what that crate documents.

use rand::seq::SliceRandom;
use rand::Rng;
use vstd::prelude::*;

verus! {

/// Picks one of the given cells at random.
///
/// Calls `rand::seq::SliceRandom::choose` on the cells with the generator of
/// `rand::thread_rng`. The contract claims what `choose` documents: the
/// result is `None` for an empty slice and an element of the slice otherwise.
/// Which element comes back is left open. The generator is seeded from the
/// operating system on first use and panics if that fails.
#[verifier::external_body]
pub(crate) fn choose_cell(cells: &Vec<(usize, usize)>) -> (picked: Option<(usize, usize)>)
    ensures
        cells@.len() == 0 ==> picked is None,
        cells@.len() > 0 ==> picked is Some && cells@.contains(picked->0),
{
    cells.choose(&mut rand::thread_rng()).copied()
}

/// Draws `true` with a chance of `numerator` in `denominator`.
///
/// Calls `rand::Rng::gen_ratio` on the generator of `rand::thread_rng`. That
/// function panics for a zero denominator and for a numerator above the
/// denominator, which the precondition rules out. The contract claims the two
/// outcomes that it documents as certain; the draw is open otherwise. The
/// generator is seeded from the operating system on first use and panics if
/// that fails.
#[verifier::external_body]
pub(crate) fn random_ratio(numerator: u32, denominator: u32) -> (hit: bool)
    requires
        0 < denominator,
        numerator <= denominator,
    ensures
        numerator == denominator ==> hit,
        numerator == 0 ==> !hit,
{
    rand::thread_rng().gen_ratio(numerator, denominator)
}

} // verus!
