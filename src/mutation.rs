//! Mutation operators: each visits every gene and, with the given probability
//! (parts per million), changes it in place.

use vstd::prelude::*;
use crate::helpers::Range;
use crate::operators::{is_permutation, lemma_swap_keeps_permutation};
use crate::random::{coin, draw_below, random_index, PROBABILITY_ONE};
use rand::rngs::StdRng;

verus! {

/// `after` is `before` with some genes flipped (`gene ^ 1`); all of them at
/// a probability of at least `PROBABILITY_ONE`.
pub open spec fn flipped_bits(before: Seq<u8>, after: Seq<u8>, probability: u32) -> bool {
    &&& after.len() == before.len()
    &&& forall|i: int| 0 <= i < before.len() ==> #[trigger] after[i] == before[i] || after[i] == before[i] ^ 1
    &&& probability >= PROBABILITY_ONE ==> forall|i: int| 0 <= i < before.len() ==> #[trigger] after[i] == before[i] ^ 1
}

/// `after` is `before` with some genes redrawn within the range; all of
/// them at a probability of at least `PROBABILITY_ONE`.
pub open spec fn reset_genes(before: Seq<i32>, after: Seq<i32>, probability: u32, range: Range<i32>) -> bool {
    &&& after.len() == before.len()
    &&& forall|i: int|
        0 <= i < before.len() ==> #[trigger] after[i] == before[i] || range.start <= after[i] <= range.end
    &&& probability >= PROBABILITY_ONE ==> forall|i: int|
        0 <= i < before.len() ==> range.start <= #[trigger] after[i] <= range.end
}

/// Bit-flip mutation: each gene is flipped (`gene ^ 1`) with the given
/// probability.
pub fn bit_flip(rng: &mut StdRng, genome: &mut Vec<u8>, probability: u32, range: &Range<u8>)
    ensures
        flipped_bits(old(genome)@, final(genome)@, probability),
        probability == 0 ==> final(genome)@ == old(genome)@,
{
    let ghost initial = genome@;
    let mut i: usize = 0;
    while i < genome.len()
        invariant
            genome@.len() == initial.len(),
            i <= genome@.len(),
            forall|k: int| i <= k < genome@.len() ==> #[trigger] genome@[k] == initial[k],
            forall|k: int| 0 <= k < i ==> #[trigger] genome@[k] == initial[k] || genome@[k] == initial[k] ^ 1,
            probability == 0 ==> forall|k: int| 0 <= k < i ==> #[trigger] genome@[k] == initial[k],
            probability >= PROBABILITY_ONE ==> forall|k: int| 0 <= k < i ==> #[trigger] genome@[k] == initial[k] ^ 1,
        decreases genome@.len() - i,
    {
        if coin(rng, probability) {
            let flipped = genome[i] ^ 1;
            genome.set(i, flipped);
        }
        i = i + 1;
    }
    proof {
        if probability == 0 {
            assert(genome@ =~= initial);
        }
    }
}

/// Random-resetting mutation: each gene is replaced, with the given
/// probability, by a value drawn uniformly from the range.
pub fn random_int(rng: &mut StdRng, genome: &mut Vec<i32>, probability: u32, range: &Range<i32>)
    requires
        range.start <= range.end,
    ensures
        reset_genes(old(genome)@, final(genome)@, probability, *range),
        probability == 0 ==> final(genome)@ == old(genome)@,
{
    let ghost initial = genome@;
    let mut i: usize = 0;
    while i < genome.len()
        invariant
            range.start <= range.end,
            genome@.len() == initial.len(),
            i <= genome@.len(),
            forall|k: int| i <= k < genome@.len() ==> #[trigger] genome@[k] == initial[k],
            forall|k: int|
                0 <= k < i ==> #[trigger] genome@[k] == initial[k] || range.start <= genome@[k] <= range.end,
            probability == 0 ==> forall|k: int| 0 <= k < i ==> #[trigger] genome@[k] == initial[k],
            probability >= PROBABILITY_ONE ==> forall|k: int| 0 <= k < i ==> range.start <= #[trigger] genome@[k] <= range.end,
        decreases genome@.len() - i,
    {
        if coin(rng, probability) {
            let width: u64 = (range.end as i64 - range.start as i64) as u64 + 1;
            let offset = draw_below(rng, width);
            let value = (range.start as i64 + offset as i64) as i32;
            genome.set(i, value);
        }
        i = i + 1;
    }
    proof {
        if probability == 0 {
            assert(genome@ =~= initial);
        }
    }
}

/// The genome after visiting positions `0 .. n` in turn, swapping position
/// `i` with `partners[i]` wherever `coins[i]` holds.
pub open spec fn apply_swaps(genome: Seq<i32>, coins: Seq<bool>, partners: Seq<int>, n: int) -> Seq<i32>
    decreases n,
{
    if n <= 0 {
        genome
    } else {
        let g = apply_swaps(genome, coins, partners, n - 1);
        if coins[n - 1] {
            g.update(n - 1, g[partners[n - 1]]).update(partners[n - 1], g[n - 1])
        } else {
            g
        }
    }
}

/// `after` is `before` with the swaps of some coins and partners applied
/// (see `apply_swaps`): no swap at probability zero, one at every position
/// at a probability of at least `PROBABILITY_ONE`.
pub open spec fn swapped_genes(before: Seq<i32>, after: Seq<i32>, probability: u32) -> bool {
    exists|coins: Seq<bool>, partners: Seq<int>|
        {
            &&& coins.len() == before.len()
            &&& partners.len() == before.len()
            &&& forall|i: int| 0 <= i < before.len() ==> 0 <= #[trigger] partners[i] < before.len()
            &&& probability == 0 ==> forall|i: int| 0 <= i < before.len() ==> !#[trigger] coins[i]
            &&& probability >= PROBABILITY_ONE ==> forall|i: int| 0 <= i < before.len() ==> #[trigger] coins[i]
            &&& after == #[trigger] apply_swaps(before, coins, partners, before.len() as int)
        }
}

/// Visits each position `i` in turn and, where `coins[i]` holds, swaps it
/// with position `partners[i]`.
pub fn swap_positions(genome: &mut Vec<i32>, coins: &Vec<bool>, partners: &Vec<usize>)
    requires
        coins@.len() == old(genome)@.len(),
        partners@.len() == old(genome)@.len(),
        forall|i: int| 0 <= i < partners@.len() ==> #[trigger] partners@[i] < old(genome)@.len(),
    ensures
        final(genome)@ == apply_swaps(
            old(genome)@,
            coins@,
            partners@.map_values(|p: usize| p as int),
            old(genome)@.len() as int,
        ),
        final(genome)@.len() == old(genome)@.len(),
        final(genome)@.to_multiset() == old(genome)@.to_multiset(),
        is_permutation(old(genome)@) ==> is_permutation(final(genome)@),
{
    let ghost initial = genome@;
    let ghost targets = partners@.map_values(|p: usize| p as int);
    let n = genome.len();
    let mut i: usize = 0;
    while i < n
        invariant
            n == genome@.len() == initial.len(),
            coins@.len() == n,
            partners@.len() == n,
            targets == partners@.map_values(|p: usize| p as int),
            forall|k: int| 0 <= k < n ==> #[trigger] partners@[k] < n,
            i <= n,
            genome@ == apply_swaps(initial, coins@, targets, i as int),
            genome@.to_multiset() == initial.to_multiset(),
            is_permutation(initial) ==> is_permutation(genome@),
        decreases n - i,
    {
        if coins[i] {
            let pair = partners[i];
            let ghost before = genome@;
            let here = genome[i];
            let there = genome[pair];
            genome.set(i, there);
            genome.set(pair, here);
            proof {
                assert(targets[i as int] == pair as int);
                assert(genome@ == before.update(i as int, before[pair as int]).update(pair as int, before[i as int]));
                if is_permutation(initial) {
                    lemma_swap_keeps_permutation(before, i as int, pair as int);
                }
                lemma_swap_keeps_multiset(before, i as int, pair as int);
            }
        }
        i = i + 1;
    }
}

/// Swap mutation: each position, with the given probability, exchanges its
/// gene with that of a uniformly drawn position. The genes are only moved, so
/// a permutation stays a permutation.
pub fn swap_position(rng: &mut StdRng, genome: &mut Vec<i32>, probability: u32, range: &Range<i32>)
    ensures
        swapped_genes(old(genome)@, final(genome)@, probability),
        final(genome)@.len() == old(genome)@.len(),
        final(genome)@.to_multiset() == old(genome)@.to_multiset(),
        probability == 0 ==> final(genome)@ == old(genome)@,
        is_permutation(old(genome)@) ==> is_permutation(final(genome)@),
{
    let n = genome.len();
    let mut coins: Vec<bool> = Vec::new();
    let mut partners: Vec<usize> = Vec::new();
    let mut i: usize = 0;
    while i < n
        invariant
            n == genome@.len(),
            i <= n,
            coins@.len() == i,
            partners@.len() == i,
            forall|k: int| 0 <= k < i ==> #[trigger] partners@[k] < n,
            probability == 0 ==> forall|k: int| 0 <= k < i ==> !#[trigger] coins@[k],
            probability >= PROBABILITY_ONE ==> forall|k: int| 0 <= k < i ==> #[trigger] coins@[k],
        decreases n - i,
    {
        let flip = coin(rng, probability);
        let pair = if flip { random_index(rng, n) } else { i };
        coins.push(flip);
        partners.push(pair);
        i = i + 1;
    }
    let ghost initial = genome@;
    swap_positions(genome, &coins, &partners);
    proof {
        let targets = partners@.map_values(|p: usize| p as int);
        assert(swapped_genes(initial, genome@, probability)) by {
            assert(genome@ == apply_swaps(initial, coins@, targets, initial.len() as int));
        }
        if probability == 0 {
            lemma_no_swaps(initial, coins@, targets, n as int);
        }
    }
}

proof fn lemma_no_swaps(genome: Seq<i32>, coins: Seq<bool>, partners: Seq<int>, n: int)
    requires
        0 <= n <= coins.len(),
        forall|i: int| 0 <= i < coins.len() ==> !#[trigger] coins[i],
    ensures
        apply_swaps(genome, coins, partners, n) == genome,
    decreases n,
{
    if n > 0 {
        lemma_no_swaps(genome, coins, partners, n - 1);
    }
}

proof fn lemma_swap_keeps_multiset(s: Seq<i32>, a: int, b: int)
    requires
        0 <= a < s.len(),
        0 <= b < s.len(),
    ensures
        s.update(a, s[b]).update(b, s[a]).to_multiset() == s.to_multiset(),
{
    broadcast use vstd::seq_lib::group_to_multiset_ensures;
    let once = s.update(a, s[b]);
    assert(once.to_multiset() == s.to_multiset().remove(s[a]).insert(s[b]));
    assert(once[b] == s[b]);
    let twice = once.update(b, s[a]);
    assert(twice.to_multiset() == once.to_multiset().remove(s[b]).insert(s[a]));
    assert(twice.to_multiset() =~= s.to_multiset());
}

} // verus!
