//! The random source of the generator: the `rand` crate's standard generator.
//!
//! Nothing in this file is proved. The generator is an opaque value; what it
//! returns is given a name, and the contracts below state how the calls into
//! `rand` relate to those names.

use rand::rngs::StdRng;
use rand::seq::SliceRandom;
use rand::RngCore;
use rand::SeedableRng;
use vstd::prelude::*;
use crate::maze::Cell;

verus! {

/// `rand::rngs::StdRng`, carried through verified code as an opaque value.
#[verifier::external_type_specification]
#[verifier::external_body]
pub struct ExStdRng(StdRng);

/// The internal state of a generator, as a sequence of words: everything that
/// decides what the generator returns from here on.
pub uninterp spec fn rng_state(rng: StdRng) -> Seq<u32>;

/// The state in which `StdRng::seed_from_u64` creates a generator from `seed`.
pub uninterp spec fn seeded_state(seed: u64) -> Seq<u32>;

/// What `choose` does on a slice of `count` items, `count` at least one, with a
/// generator in the given state: the index of the item that it picks, and the
/// state in which it leaves the generator.
pub uninterp spec fn draw(state: Seq<u32>, count: usize) -> (usize, Seq<u32>);

/// Calls `StdRng::seed_from_u64`. The contract claims that the generator made
/// depends on the seed alone: its state is `seeded_state(seed)`.
#[verifier::external_body]
pub(crate) fn seeded_rng(seed: u64) -> (rng: StdRng)
    ensures
        rng_state(rng) == seeded_state(seed),
{
    StdRng::seed_from_u64(seed)
}

/// Calls `SliceRandom::choose` on the candidates. The contract claims what the
/// source of `choose` shows: an empty slice gives `None` and leaves the
/// generator alone; otherwise the item at an index below the length is
/// returned, and both that index and the generator's next state depend on
/// nothing but the generator's state and the length.
#[verifier::external_body]
pub(crate) fn choose_cell(candidates: &Vec<Cell>, rng: &mut StdRng) -> (chosen: Option<Cell>)
    ensures
        chosen is Some <==> candidates@.len() > 0,
        chosen matches Some(cell) ==> draw(rng_state(*old(rng)), candidates.len()).0
            < candidates@.len() && cell == candidates@[draw(
            rng_state(*old(rng)),
            candidates.len(),
        ).0 as int],
        rng_state(*final(rng)) == (if candidates@.len() == 0 {
            rng_state(*old(rng))
        } else {
            draw(rng_state(*old(rng)), candidates.len()).1
        }),
{
    candidates.choose(rng).copied()
}

/// Draws a seed from `rand::thread_rng`. Nothing is claimed of the value.
/// `thread_rng` gives up where the system cannot seed it.
#[verifier::external_body]
pub(crate) fn entropy_seed() -> (seed: u64)
{
    rand::thread_rng().next_u64()
}

} // verus!
