//! Random numbers and parallel work, as the crates `rand` and `rayon` provide them.

use rand::rngs::SmallRng;
use rand::seq::SliceRandom;
use rand::{Rng, SeedableRng};
use rayon::prelude::{IntoParallelRefIterator, ParallelIterator};
use vstd::prelude::*;

verus! {

/// The small, fast random number generator of `rand`.
#[verifier::external_type_specification]
#[verifier::external_body]
pub struct ExSmallRng(rand::rngs::SmallRng);

/// A generator started from `seed`, by `SeedableRng::seed_from_u64` of `rand`.
///
/// Nothing is claimed of the generator: which numbers it gives depends on the
/// platform.
#[verifier::external_body]
pub(crate) fn seeded(seed: u64) -> (r: SmallRng) {
    SmallRng::seed_from_u64(seed)
}

/// A number below `n`, by `Rng::gen_range` of `rand` on the range from 0 to `n`,
/// which panics where that range is empty. Any number of the range may come.
#[verifier::external_body]
pub(crate) fn number_below(rng: &mut SmallRng, n: usize) -> (r: usize)
    requires
        n > 0,
    ensures
        r < n,
{
    rng.gen_range(0..n)
}

/// `amount` of the items, or all if there are fewer, each position taken once at
/// most and in any order, by `SliceRandom::choose_multiple` of `rand`. Of more than
/// `u32::MAX` items it takes fewer than all: there the crate asserts as much.
#[verifier::external_body]
pub(crate) fn sample(rng: &mut SmallRng, items: &[usize], amount: usize) -> (r: Vec<usize>)
    requires
        items@.len() <= u32::MAX || amount < items@.len(),
    ensures
        r@.len() == if amount < items@.len() {
            amount as nat
        } else {
            items@.len()
        },
        r@.to_multiset().subset_of(items@.to_multiset()),
{
    items.choose_multiple(rng, amount).cloned().collect()
}

/// Applies `f` to every item, in parallel, by `ParallelIterator::map` and `collect`
/// of `rayon`: the results stand in the order of the items.
#[verifier::external_body]
pub(crate) fn parallel_map<T: Sync, U: Send, F: Fn(&T) -> U + Sync>(items: &[T], f: &F) -> (r:
    Vec<U>)
    requires
        forall|i: int| 0 <= i < items@.len() ==> call_requires(*f, (&#[trigger] items@[i],)),
    ensures
        r@.len() == items@.len(),
        forall|i: int|
            0 <= i < r@.len() ==> call_ensures(*f, (&items@[i],), #[trigger] r@[i]),
{
    items.par_iter().map(f).collect()
}

} // verus!
