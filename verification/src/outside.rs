//! The calls into `rand` and `rayon`. Nothing in this file is proved: each
//! function makes one call and states what the rest of the library relies on.
//!
//! A seeded `StdRng` is a ChaCha stream cipher with 12 rounds. It draws on
//! nothing but its own state, so every number it yields, and the state it is
//! left in, is a function of the state before. That state is named here, and so
//! are the functions from state to number and next state; what these functions
//! are is left unsaid.

use rand::rngs::StdRng;
use rand::seq::SliceRandom;
use rand::{Rng, SeedableRng};
use rayon::iter::{IntoParallelIterator, ParallelIterator};
use vstd::prelude::*;

verus! {

/// The random generator `rand::rngs::StdRng`.
#[verifier::external_type_specification]
#[verifier::external_body]
pub struct ExStdRng(StdRng);

/// The internal state of a generator: its key, its position in the stream and
/// what it has buffered.
pub uninterp spec fn rng_state(rng: StdRng) -> Seq<u8>;

/// The state of a generator that was seeded with `seed`.
pub uninterp spec fn seeded_state(seed: u64) -> Seq<u8>;

/// The number below `bound` that a generator in the state `state` draws, and
/// the state that this leaves it in.
pub uninterp spec fn draw(state: Seq<u8>, bound: u32) -> (u32, Seq<u8>);

/// The index below `len` that a generator in the state `state` picks, and the
/// state that this leaves it in.
pub uninterp spec fn pick(state: Seq<u8>, len: nat) -> (nat, Seq<u8>);

/// `SeedableRng::seed_from_u64` for `StdRng`: the state of the generator is a
/// function of the seed alone.
#[verifier::external_body]
pub(crate) fn seeded_rng(seed: u64) -> (rng: StdRng)
    ensures
        rng_state(rng) == seeded_state(seed),
{
    StdRng::seed_from_u64(seed)
}

/// `Rng::gen_range` on `0..bound`: a number below `bound`. The number and the
/// state that the generator is left in are functions of its state before and of
/// `bound`. The call panics on an empty range, so `bound` is not zero. That the
/// numbers are spread evenly is not stated.
#[verifier::external_body]
pub(crate) fn draw_below(rng: &mut StdRng, bound: u32) -> (r: u32)
    requires
        bound > 0,
    ensures
        r < bound,
        (r, rng_state(*final(rng))) == draw(rng_state(*old(rng)), bound),
{
    rng.gen_range(0..bound)
}

/// `SliceRandom::choose`: nothing of an empty list, and then the generator is
/// not used; else one of the items, whose index and the state that the generator
/// is left in are functions of its state before and of the number of items. That
/// the items are equally likely is not stated.
#[verifier::external_body]
pub(crate) fn choose_from<'a>(items: &'a Vec<Vec<usize>>, rng: &mut StdRng) -> (r: Option<
    &'a Vec<usize>,
>)
    ensures
        items@.len() == 0 ==> r is None && rng_state(*final(rng)) == rng_state(*old(rng)),
        items@.len() > 0 ==> {
            let p = pick(rng_state(*old(rng)), items@.len());
            p.0 < items@.len() && r == Some(&items@[p.0 as int]) && rng_state(*final(rng)) == p.1
        },
{
    items.choose(rng)
}

/// `ParallelIterator::map` and `collect` on the range `0..n`, as `rayon` makes
/// it a parallel iterator: `f` is called once for each index, and its results
/// come back in the order of the indices, whichever thread computed them.
#[verifier::external_body]
pub(crate) fn parallel_map<R: Send, F: Fn(usize) -> R + Sync + Send>(n: usize, f: F) -> (r: Vec<R>)
    requires
        forall|i: usize| i < n ==> call_requires(f, (i,)),
    ensures
        r@.len() == n,
        forall|i: int| 0 <= i < n ==> call_ensures(f, (i as usize,), #[trigger] r@[i]),
{
    (0..n).into_par_iter().map(f).collect()
}

/// `rayon::current_num_threads`: how many threads share the work. Nothing is
/// stated of the number; it depends on the machine.
#[verifier::external_body]
pub(crate) fn worker_count() -> usize {
    rayon::current_num_threads()
}

} // verus!
