//! The random source: `rand`'s seedable standard generator, reached through a
//! few wrappers whose contracts say what holds of every outcome.

use vstd::prelude::*;

verus! {

#[verifier::external_type_specification]
#[verifier::external_body]
pub struct ExStdRng(rand::rngs::StdRng);

/// Relies on `rand::Rng::gen_range` over a half-open range: it returns a
/// value below `bound`, and panics only on an empty range, which `requires`
/// leaves out.
#[verifier::external_body]
pub(crate) fn draw_below(rng: &mut rand::rngs::StdRng, bound: u64) -> (r: u64)
    requires
        0 < bound,
    ensures
        r < bound,
{
    rand::Rng::gen_range(rng, 0..bound)
}

/// Relies on `rand::seq::index::sample` (and `IndexVec::into_vec`): exactly
/// `amount` distinct indices below `length`, in random order. It panics only
/// when `amount > length`, which `requires` leaves out.
#[verifier::external_body]
pub(crate) fn sample_indices(rng: &mut rand::rngs::StdRng, length: usize, amount: usize) -> (r: Vec<usize>)
    requires
        amount <= length,
    ensures
        r@.len() == amount,
        forall|i: int| 0 <= i < r@.len() ==> r@[i] < length,
        forall|i: int, j: int| 0 <= i < j < r@.len() ==> r@[i] != r@[j],
{
    rand::seq::index::sample(rng, length, amount).into_vec()
}

/// A uniformly drawn index below `bound`.
pub fn random_index(rng: &mut rand::rngs::StdRng, bound: usize) -> (r: usize)
    requires
        0 < bound,
    ensures
        r < bound,
{
    let x = draw_below(rng, bound as u64);
    x as usize
}
/// The number of equally likely outcomes of one probability draw: a
/// probability is given in parts per million.
pub const PROBABILITY_ONE: u32 = 1_000_000;

/// One Bernoulli trial: `true` with probability `probability / PROBABILITY_ONE`.
/// A probability of zero never succeeds; one of at least `PROBABILITY_ONE`
/// always does.
pub fn coin(rng: &mut rand::rngs::StdRng, probability: u32) -> (r: bool)
    ensures
        probability == 0 ==> !r,
        probability >= PROBABILITY_ONE ==> r,
{
    let x = draw_below(rng, PROBABILITY_ONE as u64);
    x < probability as u64
}

} // verus!
