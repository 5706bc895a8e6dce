//! The random choices the simulation makes, drawn from a seeded `rand::rngs::StdRng`.
//! Each item here is trusted: its contract states what holds of every outcome of the call.
use rand::rngs::StdRng;
use rand::seq::{IteratorRandom, SliceRandom};
use rand::{Rng, SeedableRng};

use vstd::prelude::*;

verus! {

#[verifier::external_type_specification]
#[verifier::external_body]
pub struct ExStdRng(StdRng);

/// Calls `StdRng::seed_from_u64`. Nothing is claimed of the generator it returns.
#[verifier::external_body]
pub(crate) fn seeded_rng(seed: u64) -> StdRng {
    StdRng::seed_from_u64(seed)
}

/// Calls `Rng::random_range` on the half-open range `low..high`.
/// Claims only that the value lies in the range; rand panics on an empty range,
/// which `requires` rules out.
#[verifier::external_body]
pub(crate) fn random_below(rng: &mut StdRng, low: u64, high: u64) -> (r: u64)
    requires
        low < high,
    ensures
        low <= r < high,
{
    rng.random_range(low..high)
}

/// Calls `IteratorRandom::choose_multiple` on the items of `items`, asking for `amount`
/// of them. rand's reservoir sampling keeps `amount` items taken from distinct positions
/// of the input, in an order it leaves open; so the contract claims the length and that
/// the result, counted with multiplicity, is contained in the input.
#[verifier::external_body]
pub(crate) fn choose_multiple<T>(rng: &mut StdRng, items: Vec<T>, amount: usize) -> (r: Vec<T>)
    requires
        amount <= items.len(),
    ensures
        r.len() == amount,
        r@.to_multiset().subset_of(items@.to_multiset()),
{
    items.into_iter().choose_multiple(rng, amount)
}

/// Calls `IteratorRandom::choose` on the items of `items`: `None` exactly when there are
/// none, otherwise one of them.
#[verifier::external_body]
pub(crate) fn choose_one<T>(rng: &mut StdRng, items: Vec<T>) -> (r: Option<T>)
    ensures
        r is None <==> items.len() == 0,
        r matches Some(x) ==> items@.contains(x),
{
    items.into_iter().choose(rng)
}

/// Calls `SliceRandom::shuffle`, which permutes the elements in place.
#[verifier::external_body]
pub(crate) fn shuffle<T>(rng: &mut StdRng, v: &mut Vec<T>)
    ensures
        final(v)@.to_multiset() == old(v)@.to_multiset(),
{
    v.shuffle(rng)
}

} // verus!
