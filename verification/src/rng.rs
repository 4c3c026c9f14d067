//! Seeded randomness. Generation and guard placement draw from a small,
//! fast generator seeded per subsystem; nothing here claims anything about the
//! values drawn beyond the range each draw is documented to respect.

use rand::rngs::SmallRng;
use rand::seq::SliceRandom;
use rand::{Rng, SeedableRng};

use vstd::prelude::*;

verus! {

/// The generator type of `rand::rngs`, carried through the library opaquely.
#[verifier::external_type_specification]
#[verifier::external_body]
pub struct ExSmallRng(SmallRng);

/// `SmallRng::seed_from_u64`: a generator seeded from `seed`. Nothing is
/// claimed of the stream it produces.
#[verifier::external_body]
pub(crate) fn seeded_rng(seed: u64) -> SmallRng {
    SmallRng::seed_from_u64(seed)
}

/// `Rng::gen_range` over `lo..hi` for `usize`: some value in the half-open
/// range (the call panics on an empty range, which `requires` rules out).
#[verifier::external_body]
pub(crate) fn gen_index(rng: &mut SmallRng, lo: usize, hi: usize) -> (r: usize)
    requires
        lo < hi,
    ensures
        lo <= r < hi,
{
    rng.gen_range(lo..hi)
}

/// `Rng::gen_range` over `lo..hi` for 32-bit integers: some value in the
/// half-open range (empty ranges panic and are ruled out by `requires`).
#[verifier::external_body]
pub(crate) fn gen_u32(rng: &mut SmallRng, lo: u32, hi: u32) -> (r: u32)
    requires
        lo < hi,
    ensures
        lo <= r < hi,
{
    rng.gen_range(lo..hi)
}

/// `SliceRandom::shuffle`: the vector afterwards holds the same tiles, each as
/// often as before, in some order.
#[verifier::external_body]
pub(crate) fn shuffle_tiles(rng: &mut SmallRng, v: &mut Vec<(usize, usize)>)
    ensures
        final(v)@.len() == old(v)@.len(),
        final(v)@.to_multiset() == old(v)@.to_multiset(),
{
    v.shuffle(rng)
}

/// `SliceRandom::choose_multiple`, collected: `min(amount, len)` of the
/// tiles, drawn from distinct positions, in some order.
#[verifier::external_body]
pub(crate) fn choose_tiles(rng: &mut SmallRng, v: &Vec<(usize, usize)>, amount: usize) -> (r: Vec<(usize, usize)>)
    ensures
        r@.len() == if amount < v@.len() { amount as int } else { v@.len() as int },
        r@.to_multiset().subset_of(v@.to_multiset()),
{
    v.choose_multiple(rng, amount).copied().collect()
}

} // verus!
