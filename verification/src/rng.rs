//! The seeded random source of the map generator, behind trusted
//! declarations.
//!
//! The generator's only requirement of its randomness is that it be a
//! deterministic function of the seed, so that identical `(width, height,
//! seed)` inputs always produce identical grids. The model here captures
//! exactly that: a generator value is identified by its construction
//! history — the seed it was built from followed by the bounds of every
//! range drawn from it — and each draw is a named function of that
//! history. Nothing further is assumed about the sampled values beyond
//! the documented range guarantee.

use vstd::prelude::*;

use rand::rngs::StdRng;
use rand::Rng;
use rand::SeedableRng;

verus! {

#[verifier::external_type_specification]
#[verifier::external_body]
pub struct ExStdRng(StdRng);

/// The abstract construction history of a generator value: the seed it
/// was built from, followed by the `(low, high)` bounds of each draw made
/// from it, in order. Two generators with the same history hold the same
/// state, because seeding and sampling are deterministic in this crate
/// version.
pub uninterp spec fn rng_hist(r: StdRng) -> Seq<int>;

/// The value sampled from a generator whose history is `hist` when asked
/// for the half-open range `[low, high)`. Deterministic in its arguments:
/// the sample depends on the generator state and the bounds alone.
pub uninterp spec fn range_draw(hist: Seq<int>, low: int, high: int) -> usize;

/// Relies on `rand::SeedableRng::seed_from_u64` for `StdRng`: the
/// documentation fixes it as a pure expansion of the 64-bit seed into the
/// generator state (a value-breaking change is promised never to be
/// silent), so the fresh generator's state is determined by the seed
/// alone.
#[verifier::external_body]
pub fn rng_from_seed(seed: u64) -> (r: StdRng)
    ensures
        rng_hist(r) == seq![seed as int],
{
    StdRng::seed_from_u64(seed)
}

/// Relies on `rand::Rng::gen_range` over a half-open `usize` range: the
/// sample always lies in the given non-empty range (sampling an empty
/// range would panic, which the precondition rules out), and both the
/// sample and the successor state are deterministic functions of the
/// prior state and the bounds.
#[verifier::external_body]
pub fn draw_range(r: &mut StdRng, low: usize, high: usize) -> (v: usize)
    requires
        low < high,
    ensures
        low <= v < high,
        v == range_draw(rng_hist(*old(r)), low as int, high as int),
        rng_hist(*final(r)) == rng_hist(*old(r)) + seq![low as int, high as int],
{
    r.gen_range(low..high)
}

} // verus!
