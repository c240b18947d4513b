//! The contracts between the engine and its pluggable parts: gene values and
//! the four genetic operators (fitness, distance, crossover, mutation).

use vstd::prelude::*;
use crate::fixed::{FIXED_ONE, MAX_FITNESS, MAX_GENOME_LENGTH};
use crate::helpers::Range;
use rand::rngs::StdRng;

verus! {

/// A scalar gene value that can be drawn uniformly from a closed range.
pub trait Gene: Copy + Sized {
    /// The gene as a mathematical integer.
    spec fn value(self) -> int;

    /// Whether this gene is at most `other`.
    fn not_above(&self, other: &Self) -> (r: bool)
        ensures
            r == (self.value() <= other.value());

    /// A value drawn uniformly from `[range.start, range.end]`.
    fn sample(rng: &mut StdRng, range: &Range<Self>) -> (r: Self)
        requires
            range.start.value() <= range.end.value(),
        ensures
            range.start.value() <= r.value() <= range.end.value();
}

impl Gene for u8 {
    open spec fn value(self) -> int {
        self as int
    }

    fn not_above(&self, other: &u8) -> (r: bool) {
        *self <= *other
    }

    fn sample(rng: &mut StdRng, range: &Range<u8>) -> (r: u8) {
        let width: u64 = (range.end - range.start) as u64 + 1;
        let offset = crate::random::draw_below(rng, width);
        range.start + offset as u8
    }
}

impl Gene for i32 {
    open spec fn value(self) -> int {
        self as int
    }

    fn not_above(&self, other: &i32) -> (r: bool) {
        *self <= *other
    }

    fn sample(rng: &mut StdRng, range: &Range<i32>) -> (r: i32) {
        let width: u64 = (range.end as i64 - range.start as i64) as u64 + 1;
        let offset = crate::random::draw_below(rng, width);
        (range.start as i64 + offset as i64) as i32
    }
}

/// The genome holds each of `0 .. len` exactly once.
pub open spec fn is_permutation<T: Gene>(genome: Seq<T>) -> bool {
    &&& forall|i: int| 0 <= i < genome.len() ==> 0 <= #[trigger] genome[i].value() < genome.len()
    &&& forall|i: int, j: int|
        0 <= i < j < genome.len() ==> #[trigger] genome[i].value() != #[trigger] genome[j].value()
}

/// The operators a population is run with. Fitness is higher-is-better and,
/// like distance, a fixed-point integer that depends on its arguments alone.
pub trait GeneticOperators<T: Gene> {
    /// The fitness of a genome.
    spec fn fitness_of(&self, genome: Seq<T>, range: Range<T>) -> int;

    /// The distance between two genomes of equal length.
    spec fn distance_of(&self, a: Seq<T>, b: Seq<T>, range: Range<T>) -> int;

    /// Whether crossover and mutation turn permutations into permutations.
    spec fn keeps_permutations(&self) -> bool;

    /// What crossover may make of `dad` and `mom`: `boy` and `girl`.
    spec fn offspring(&self, dad: Seq<T>, mom: Seq<T>, boy: Seq<T>, girl: Seq<T>) -> bool;

    /// What mutation with the given probability may make of `before`.
    spec fn mutation(&self, before: Seq<T>, after: Seq<T>, probability: u32, range: Range<T>) -> bool;

    /// The distance is zero on equal genomes, symmetric, and within
    /// `[0, FIXED_ONE]`.
    proof fn lemma_distance_laws(&self, a: Seq<T>, b: Seq<T>, range: Range<T>)
        requires
            a.len() == b.len(),
            a.len() <= MAX_GENOME_LENGTH,
        ensures
            self.distance_of(a, a, range) == 0,
            self.distance_of(a, b, range) == self.distance_of(b, a, range),
            0 <= self.distance_of(a, b, range) <= FIXED_ONE;

    fn fitness(&self, genome: &Vec<T>, range: &Range<T>) -> (r: i64)
        requires
            genome@.len() <= MAX_GENOME_LENGTH,
        ensures
            r == self.fitness_of(genome@, *range),
            -MAX_FITNESS <= r <= MAX_FITNESS;

    fn distance(&self, a: &Vec<T>, b: &Vec<T>, range: &Range<T>) -> (r: i64)
        requires
            a@.len() == b@.len(),
            a@.len() <= MAX_GENOME_LENGTH,
        ensures
            r == self.distance_of(a@, b@, *range);

    /// Two offspring of the same length as their parents.
    fn crossover(&self, rng: &mut StdRng, dad: &Vec<T>, mom: &Vec<T>) -> (r: (Vec<T>, Vec<T>))
        requires
            dad@.len() == mom@.len(),
            2 <= dad@.len() <= MAX_GENOME_LENGTH,
        ensures
            self.offspring(dad@, mom@, r.0@, r.1@),
            r.0@.len() == dad@.len(),
            r.1@.len() == dad@.len(),
            self.keeps_permutations() && is_permutation(dad@) && is_permutation(mom@) ==> is_permutation(r.0@)
                && is_permutation(r.1@);

    /// Mutates each gene with the given probability (parts per million).
    fn mutate(&self, rng: &mut StdRng, genome: &mut Vec<T>, probability: u32, range: &Range<T>)
        requires
            old(genome)@.len() <= MAX_GENOME_LENGTH,
            range.start.value() <= range.end.value(),
        ensures
            self.mutation(old(genome)@, final(genome)@, probability, *range),
            final(genome)@.len() == old(genome)@.len(),
            probability == 0 ==> final(genome)@ == old(genome)@,
            self.keeps_permutations() && is_permutation(old(genome)@) ==> is_permutation(final(genome)@);
}

/// A permutation of `0 .. len` holds every value below `len`.
pub proof fn lemma_permutation_contains(genome: Seq<i32>, v: int)
    requires
        is_permutation(genome),
        0 <= v < genome.len(),
    ensures
        exists|k: int| 0 <= k < genome.len() && genome[k] == v,
{
    let values = genome.map_values(|x: i32| x as int);
    assert(values.no_duplicates()) by {
        assert forall|i: int, j: int| 0 <= i < values.len() && 0 <= j < values.len() && i != j implies values[i]
            != values[j] by {
            if i < j {
                assert(genome[i].value() != genome[j].value());
            } else {
                assert(genome[j].value() != genome[i].value());
            }
        }
    }
    values.unique_seq_to_set();
    vstd::set_lib::lemma_int_range(0, genome.len() as int);
    let range = vstd::set_lib::set_int_range(0, genome.len() as int);
    assert(values.to_set().subset_of(range)) by {
        assert forall|x: int| values.to_set().contains(x) implies range.contains(x) by {
            assert(values.contains(x));
            let i = choose|i: int| 0 <= i < values.len() && values[i] == x;
            assert(genome[i].value() == x);
        }
    }
    vstd::set_lib::lemma_subset_equality(values.to_set(), range);
    assert(range.contains(v));
    assert(values.to_set().contains(v));
    assert(values.contains(v));
    let k = choose|k: int| 0 <= k < values.len() && values[k] == v;
    assert(genome[k] == v);
}

/// Swapping two positions keeps a permutation a permutation.
pub proof fn lemma_swap_keeps_permutation<T: Gene>(genome: Seq<T>, a: int, b: int)
    requires
        is_permutation(genome),
        0 <= a < genome.len(),
        0 <= b < genome.len(),
    ensures
        is_permutation(genome.update(a, genome[b]).update(b, genome[a])),
{
    let swapped = genome.update(a, genome[b]).update(b, genome[a]);
    assert forall|i: int| 0 <= i < swapped.len() implies 0 <= #[trigger] swapped[i].value() < swapped.len() by {
        if i == b {
        } else if i == a {
        } else {
            assert(swapped[i] == genome[i]);
        }
    }
    assert forall|i: int, j: int| 0 <= i < j < swapped.len() implies #[trigger] swapped[i].value()
        != #[trigger] swapped[j].value() by {
        let si = if i == b { a } else if i == a { b } else { i };
        let sj = if j == b { a } else if j == a { b } else { j };
        assert(swapped[i] == genome[si]);
        assert(swapped[j] == genome[sj]);
        assert(si != sj);
        if si < sj {
            assert(genome[si].value() != genome[sj].value());
        } else {
            assert(genome[sj].value() != genome[si].value());
        }
    }
}

} // verus!
