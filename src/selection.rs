//! The selection rules on a fitness vector, given the random draws: the
//! tournament winner among drawn candidates, and the roulette slot that a
//! drawn ticket falls into.

use vstd::prelude::*;
use crate::fixed::{MAX_FITNESS, MAX_POPULATION_SIZE};

verus! {

/// Fitness values as mathematical integers.
pub open spec fn as_ints(values: Seq<i64>) -> Seq<int> {
    values.map_values(|v: i64| v as int)
}

/// `w` wins a tournament among `k` distinct indices below `n`.
pub open spec fn is_tournament_winner(fitnesses: Seq<int>, n: int, k: int, w: int) -> bool {
    exists|candidates: Seq<usize>|
        {
            &&& candidates.len() == k
            &&& forall|i: int| 0 <= i < k ==> #[trigger] candidates[i] < n
            &&& forall|i: int, j: int| 0 <= i < j < k ==> candidates[i] != candidates[j]
            &&& w == #[trigger] tournament_winner(fitnesses, candidates)
        }
}

/// The winner of a tournament among `candidates` (drawn in this order): a
/// candidate replaces the current best when its fitness is at least as high,
/// so the latest of the fittest candidates wins.
pub open spec fn tournament_winner(fitnesses: Seq<int>, candidates: Seq<usize>) -> usize
    decreases candidates.len(),
{
    if candidates.len() <= 1 {
        candidates[0]
    } else {
        let previous = tournament_winner(fitnesses, candidates.drop_last());
        if fitnesses[candidates.last() as int] >= fitnesses[previous as int] {
            candidates.last()
        } else {
            previous
        }
    }
}

proof fn lemma_tournament_winner(fitnesses: Seq<int>, candidates: Seq<usize>)
    requires
        candidates.len() >= 1,
        forall|k: int| 0 <= k < candidates.len() ==> candidates[k] < fitnesses.len(),
    ensures
        exists|k: int| 0 <= k < candidates.len() && candidates[k] == tournament_winner(fitnesses, candidates),
        forall|k: int|
            0 <= k < candidates.len() ==> fitnesses[candidates[k] as int] <= fitnesses[tournament_winner(
                fitnesses,
                candidates,
            ) as int],
    decreases candidates.len(),
{
    if candidates.len() > 1 {
        let rest = candidates.drop_last();
        lemma_tournament_winner(fitnesses, rest);
        let w = tournament_winner(fitnesses, rest);
        let k0 = choose|k: int| 0 <= k < rest.len() && rest[k] == w;
        if fitnesses[candidates.last() as int] >= fitnesses[w as int] {
            assert(candidates[candidates.len() - 1] == tournament_winner(fitnesses, candidates));
        } else {
            assert(candidates[k0] == rest[k0]);
            assert(candidates[k0] == tournament_winner(fitnesses, candidates));
        }
        assert forall|k: int| 0 <= k < candidates.len() implies fitnesses[candidates[k] as int]
            <= fitnesses[tournament_winner(fitnesses, candidates) as int] by {
            if k < candidates.len() - 1 {
                assert(candidates[k] == rest[k]);
            }
        }
    } else {
        assert(candidates[0] == tournament_winner(fitnesses, candidates));
    }
}

/// The tournament winner among the drawn candidates: one of them, with the
/// highest fitness among them, the latest such on ties.
pub fn tournament_pick(fitnesses: &Vec<i64>, candidates: &Vec<usize>) -> (r: usize)
    requires
        candidates@.len() >= 1,
        forall|k: int| 0 <= k < candidates@.len() ==> candidates@[k] < fitnesses@.len(),
    ensures
        r == tournament_winner(as_ints(fitnesses@), candidates@),
        r < fitnesses@.len(),
        exists|k: int| 0 <= k < candidates@.len() && candidates@[k] == r,
        forall|k: int| 0 <= k < candidates@.len() ==> fitnesses@[candidates@[k] as int] <= fitnesses@[r as int],
{
    let mut best = candidates[0];
    let mut i: usize = 1;
    while i < candidates.len()
        invariant
            1 <= i <= candidates@.len(),
            forall|k: int| 0 <= k < candidates@.len() ==> candidates@[k] < fitnesses@.len(),
            best == tournament_winner(as_ints(fitnesses@), candidates@.subrange(0, i as int)),
        decreases candidates@.len() - i,
    {
        proof {
            assert(candidates@.subrange(0, i as int + 1).drop_last() =~= candidates@.subrange(0, i as int));
            lemma_tournament_winner(as_ints(fitnesses@), candidates@.subrange(0, i as int));
        }
        let picked = candidates[i];
        if fitnesses[picked] >= fitnesses[best] {
            best = picked;
        }
        i = i + 1;
    }
    proof {
        assert(candidates@.subrange(0, i as int) =~= candidates@);
        lemma_tournament_winner(as_ints(fitnesses@), candidates@);
    }
    best
}

/// The sum of the first `n` fitness values.
pub open spec fn prefix_sum(fitnesses: Seq<i64>, n: int) -> int
    decreases n,
{
    if n <= 0 {
        0
    } else {
        prefix_sum(fitnesses, n - 1) + fitnesses[n - 1]
    }
}

/// Every fitness value lies in `[0, MAX_FITNESS]`.
pub open spec fn all_non_negative(fitnesses: Seq<i64>) -> bool {
    forall|i: int| 0 <= i < fitnesses.len() ==> 0 <= #[trigger] fitnesses[i] <= MAX_FITNESS
}

pub proof fn lemma_prefix_sum_monotone(fitnesses: Seq<i64>, m: int, n: int)
    requires
        all_non_negative(fitnesses),
        0 <= m <= n <= fitnesses.len(),
    ensures
        0 <= prefix_sum(fitnesses, m) <= prefix_sum(fitnesses, n) <= n * MAX_FITNESS,
    decreases n,
{
    if n > 0 {
        if m < n {
            lemma_prefix_sum_monotone(fitnesses, m, n - 1);
        } else {
            lemma_prefix_sum_monotone(fitnesses, m - 1, n - 1);
        }
    }
}

/// Index `r` is the roulette slot of ticket `chance`: the first index whose
/// cumulative fitness exceeds the ticket.
pub open spec fn is_roulette_slot(fitnesses: Seq<i64>, chance: int, r: int) -> bool {
    &&& 0 <= r < fitnesses.len()
    &&& prefix_sum(fitnesses, r + 1) > chance
    &&& forall|k: int| 0 < k <= r ==> #[trigger] prefix_sum(fitnesses, k) <= chance
}

/// The roulette slot of a ticket `chance` in `[0, total)`: the first index whose
/// cumulative fitness exceeds the ticket. Each index is the slot of as many
/// tickets as its fitness, so it is chosen with probability
/// `fitness / total` when the ticket is drawn uniformly.
pub fn roulette_pick(fitnesses: &Vec<i64>, chance: i64) -> (r: usize)
    requires
        fitnesses@.len() <= MAX_POPULATION_SIZE,
        all_non_negative(fitnesses@),
        0 <= chance < prefix_sum(fitnesses@, fitnesses@.len() as int),
    ensures
        is_roulette_slot(fitnesses@, chance as int, r as int),
{
    let mut cumulative: i64 = 0;
    let mut i: usize = 0;
    while i < fitnesses.len()
        invariant
            fitnesses@.len() <= MAX_POPULATION_SIZE,
            all_non_negative(fitnesses@),
            0 <= chance < prefix_sum(fitnesses@, fitnesses@.len() as int),
            i <= fitnesses@.len(),
            cumulative == prefix_sum(fitnesses@, i as int),
            cumulative <= chance,
            forall|k: int| 0 < k <= i ==> #[trigger] prefix_sum(fitnesses@, k) <= chance,
        decreases fitnesses@.len() - i,
    {
        proof {
            lemma_prefix_sum_monotone(fitnesses@, i as int + 1, i as int + 1);
        }
        cumulative = cumulative + fitnesses[i];
        if chance < cumulative {
            return i;
        }
        i = i + 1;
    }
    i
}

} // verus!
