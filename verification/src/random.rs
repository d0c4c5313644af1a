//! The random source: the `rand` crate's thread-local generator, and what
//! the rest of the library assumes of its draws.
//!
//! Nothing in this file is proved. Each contract states only what holds of
//! every outcome of the draw it describes.

use rand::rngs::ThreadRng;
use rand::seq::IndexedMutRandom;
use rand::seq::IteratorRandom;
use rand::seq::SliceRandom;
use rand::Rng;
use vstd::prelude::*;

verus! {

/// `rand::rngs::ThreadRng`, a handle to the thread-local generator. Its
/// state is hidden: no contract speaks of it.
#[verifier::external_type_specification]
#[verifier::external_body]
pub struct ExThreadRng(ThreadRng);

/// `rand::rng` hands out a handle to the thread-local generator. Nothing
/// is claimed of the handle. The call panics where the generator cannot be
/// seeded from the operating system.
pub assume_specification[ rand::rng ]() -> (rng: ThreadRng)
;

/// Whether every entry of `picked` is an entry of `pool`, the entry at
/// index `k` being the one at `positions[k]`, and no position is used twice.
pub open spec fn picked_at<T>(picked: Seq<T>, pool: Seq<T>, positions: Seq<int>) -> bool {
    &&& positions.len() == picked.len()
    &&& positions.no_duplicates()
    &&& forall|k: int|
        0 <= k < picked.len() ==> 0 <= #[trigger] positions[k] < pool.len() && picked[k]
            == pool[positions[k]]
}

/// `Rng::random_range` on a half-open range of `usize`: the draw lies in
/// `low..high`. The range must not be empty, or the call panics.
#[verifier::external_body]
pub(crate) fn random_index(rng: &mut ThreadRng, low: usize, high: usize) -> (index: usize)
    requires
        low < high,
    ensures
        low <= index < high,
{
    rng.random_range(low..high)
}

/// `Rng::random_range` on a closed range of `u8`: the draw lies in
/// `low..=high`. The range must not be empty, or the call panics.
#[verifier::external_body]
pub(crate) fn random_value(rng: &mut ThreadRng, low: u8, high: u8) -> (value: u8)
    requires
        low <= high,
    ensures
        low <= value <= high,
{
    rng.random_range(low..=high)
}

/// `IteratorRandom::choose_multiple` on the entries of `pool`: it returns
/// `amount` entries, or all of them where there are fewer, each taken from a
/// position of its own. Their order is left open.
#[verifier::external_body]
pub(crate) fn choose_multiple(
    rng: &mut ThreadRng,
    pool: &Vec<(usize, usize)>,
    amount: usize,
) -> (picked: Vec<(usize, usize)>)
    ensures
        picked@.len() == if amount <= pool@.len() {
            amount as nat
        } else {
            pool@.len()
        },
        exists|positions: Seq<int>| picked_at(picked@, pool@, positions),
{
    pool.as_slice().iter().choose_multiple(rng, amount).into_iter().cloned().collect()
}

/// `IndexedMutRandom::choose_mut` on the entries of `pool`: it returns
/// nothing where `pool` is empty, and else one of its entries. The entry is
/// handed out by value, and `pool` is left as it was.
#[verifier::external_body]
pub(crate) fn choose_one(rng: &mut ThreadRng, pool: &mut Vec<(usize, usize)>) -> (picked: Option<
    (usize, usize),
>)
    ensures
        final(pool)@ == old(pool)@,
        picked is None <==> old(pool)@.len() == 0,
        picked matches Some(entry) ==> old(pool)@.contains(entry),
{
    match pool.as_mut_slice().choose_mut(rng) {
        Some(entry) => Some(*entry),
        None => None,
    }
}

/// `SliceRandom::shuffle` reorders `values` in place: afterwards it holds
/// the same entries, each as often as before.
#[verifier::external_body]
pub(crate) fn shuffle(rng: &mut ThreadRng, values: &mut Vec<u8>)
    ensures
        final(values)@.to_multiset() == old(values)@.to_multiset(),
{
    values.as_mut_slice().shuffle(rng);
}

} // verus!
