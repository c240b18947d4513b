//! Ready-made operator sets: bit strings, integer strings and permutations.

use vstd::prelude::*;
use crate::crossover::{
    is_rearrangement, lemma_permutations_are_rearrangements, lemma_rearranged_permutation, matched_offspring, matched_pair,
    one_point_crossover, one_point_pair, partially_matched_crossover,
};
use crate::fitness::{
    bit_changes, deceptive_4, deceptive_f3, deceptive_f3s, max_alternating_bits, max_alternating_even_odd, n_queens,
    parity_changes, pattern_fitness, pattern_recognition, traps4_from, traps_from, diagonal_collisions,
};
use crate::fixed::FIXED_ONE;
use crate::helpers::{euclidean_distance_int, euclidean_value, hamming_distance, hamming_value, lemma_euclidean_laws, lemma_hamming_laws, Range};
use crate::maze::{path_fitness, path_value};
use crate::mutation::{bit_flip, flipped_bits, random_int, reset_genes, swap_position, swapped_genes};
use crate::operators::{is_permutation, GeneticOperators};
use crate::population::{copy_genome, lemma_diversity_zero_iff_no_distance, Population};
use rand::rngs::StdRng;

verus! {

/// The fitness landscapes over bit strings.
pub enum BitLandscape {
    MaxAlternatingBits,
    PatternRecognition,
    DeceptiveF3,
    DeceptiveF3s,
    Deceptive4,
}

/// Bit strings: Hamming distance, one-point crossover, bit-flip mutation.
pub struct BitStringOperators {
    pub landscape: BitLandscape,
}

impl GeneticOperators<u8> for BitStringOperators {
    open spec fn fitness_of(&self, genome: Seq<u8>, range: Range<u8>) -> int {
        match self.landscape {
            BitLandscape::MaxAlternatingBits => bit_changes(genome, genome.len() as int) * FIXED_ONE,
            BitLandscape::PatternRecognition => pattern_fitness(genome),
            BitLandscape::DeceptiveF3 => traps_from(genome, 0, 1) * FIXED_ONE,
            BitLandscape::DeceptiveF3s => traps_from(genome, 0, 10) * FIXED_ONE,
            BitLandscape::Deceptive4 => traps4_from(genome, 0) * FIXED_ONE,
        }
    }

    open spec fn distance_of(&self, a: Seq<u8>, b: Seq<u8>, range: Range<u8>) -> int {
        hamming_value(a, b)
    }

    open spec fn keeps_permutations(&self) -> bool {
        false
    }

    open spec fn offspring(&self, dad: Seq<u8>, mom: Seq<u8>, boy: Seq<u8>, girl: Seq<u8>) -> bool {
        one_point_pair(dad, mom, boy, girl)
    }

    open spec fn mutation(&self, before: Seq<u8>, after: Seq<u8>, probability: u32, range: Range<u8>) -> bool {
        flipped_bits(before, after, probability)
    }

    proof fn lemma_distance_laws(&self, a: Seq<u8>, b: Seq<u8>, range: Range<u8>) {
        lemma_hamming_laws(a, b);
    }

    fn fitness(&self, genome: &Vec<u8>, range: &Range<u8>) -> (r: i64) {
        match self.landscape {
            BitLandscape::MaxAlternatingBits => max_alternating_bits(genome, range),
            BitLandscape::PatternRecognition => pattern_recognition(genome, range),
            BitLandscape::DeceptiveF3 => deceptive_f3(genome, range),
            BitLandscape::DeceptiveF3s => deceptive_f3s(genome, range),
            BitLandscape::Deceptive4 => deceptive_4(genome, range),
        }
    }

    fn distance(&self, a: &Vec<u8>, b: &Vec<u8>, range: &Range<u8>) -> (r: i64) {
        hamming_distance(a, b, range)
    }

    fn crossover(&self, rng: &mut StdRng, dad: &Vec<u8>, mom: &Vec<u8>) -> (r: (Vec<u8>, Vec<u8>)) {
        one_point_crossover(rng, dad, mom)
    }

    fn mutate(&self, rng: &mut StdRng, genome: &mut Vec<u8>, probability: u32, range: &Range<u8>) {
        bit_flip(rng, genome, probability, range)
    }
}

/// The fitness landscapes over integer strings.
pub enum IntegerLandscape {
    MaxAlternatingEvenOdd,
    NQueens,
    PathFitness,
}

/// Integer strings: normalised Euclidean distance, one-point crossover,
/// random-resetting mutation.
pub struct IntegerOperators {
    pub landscape: IntegerLandscape,
}

/// The N-queens fitness of a genome.
pub open spec fn queens_fitness(genome: Seq<i32>) -> int {
    if genome.len() == 0 {
        0
    } else {
        (genome.len() - diagonal_collisions(genome, genome.len() as int)) * FIXED_ONE / (genome.len() as int)
    }
}

impl GeneticOperators<i32> for IntegerOperators {
    open spec fn fitness_of(&self, genome: Seq<i32>, range: Range<i32>) -> int {
        match self.landscape {
            IntegerLandscape::MaxAlternatingEvenOdd => parity_changes(genome, genome.len() as int) * FIXED_ONE,
            IntegerLandscape::NQueens => queens_fitness(genome),
            IntegerLandscape::PathFitness => path_value(genome),
        }
    }

    open spec fn distance_of(&self, a: Seq<i32>, b: Seq<i32>, range: Range<i32>) -> int {
        euclidean_value(a, b, range)
    }

    open spec fn keeps_permutations(&self) -> bool {
        false
    }

    open spec fn offspring(&self, dad: Seq<i32>, mom: Seq<i32>, boy: Seq<i32>, girl: Seq<i32>) -> bool {
        one_point_pair(dad, mom, boy, girl)
    }

    open spec fn mutation(&self, before: Seq<i32>, after: Seq<i32>, probability: u32, range: Range<i32>) -> bool {
        reset_genes(before, after, probability, range)
    }

    proof fn lemma_distance_laws(&self, a: Seq<i32>, b: Seq<i32>, range: Range<i32>) {
        lemma_euclidean_laws(a, b, range);
    }

    fn fitness(&self, genome: &Vec<i32>, range: &Range<i32>) -> (r: i64) {
        match self.landscape {
            IntegerLandscape::MaxAlternatingEvenOdd => max_alternating_even_odd(genome, range),
            IntegerLandscape::NQueens => n_queens(genome, range),
            IntegerLandscape::PathFitness => path_fitness(genome, range),
        }
    }

    fn distance(&self, a: &Vec<i32>, b: &Vec<i32>, range: &Range<i32>) -> (r: i64) {
        euclidean_distance_int(a, b, range)
    }

    fn crossover(&self, rng: &mut StdRng, dad: &Vec<i32>, mom: &Vec<i32>) -> (r: (Vec<i32>, Vec<i32>)) {
        one_point_crossover(rng, dad, mom)
    }

    fn mutate(&self, rng: &mut StdRng, genome: &mut Vec<i32>, probability: u32, range: &Range<i32>) {
        random_int(rng, genome, probability, range)
    }
}

/// Permutations of `0 .. len` for the N-queens landscape: normalised
/// Euclidean distance, partially matched crossover (parents of fewer than
/// four genes, or that are not permutations, are copied), swap mutation.
pub struct PermutationOperators;

impl GeneticOperators<i32> for PermutationOperators {
    open spec fn fitness_of(&self, genome: Seq<i32>, range: Range<i32>) -> int {
        queens_fitness(genome)
    }

    open spec fn distance_of(&self, a: Seq<i32>, b: Seq<i32>, range: Range<i32>) -> int {
        euclidean_value(a, b, range)
    }

    open spec fn keeps_permutations(&self) -> bool {
        true
    }

    /// Partially matched crossover; parents of fewer than four genes, or that
    /// are not rearrangements of one set of distinct genes, are copied.
    open spec fn offspring(&self, dad: Seq<i32>, mom: Seq<i32>, boy: Seq<i32>, girl: Seq<i32>) -> bool {
        if dad.len() < 4 || !is_rearrangement(dad, mom) {
            boy == dad && girl == mom
        } else {
            matched_pair(dad, mom, boy, girl)
        }
    }

    open spec fn mutation(&self, before: Seq<i32>, after: Seq<i32>, probability: u32, range: Range<i32>) -> bool {
        swapped_genes(before, after, probability)
    }

    proof fn lemma_distance_laws(&self, a: Seq<i32>, b: Seq<i32>, range: Range<i32>) {
        lemma_euclidean_laws(a, b, range);
    }

    fn fitness(&self, genome: &Vec<i32>, range: &Range<i32>) -> (r: i64) {
        n_queens(genome, range)
    }

    fn distance(&self, a: &Vec<i32>, b: &Vec<i32>, range: &Range<i32>) -> (r: i64) {
        euclidean_distance_int(a, b, range)
    }

    fn crossover(&self, rng: &mut StdRng, dad: &Vec<i32>, mom: &Vec<i32>) -> (r: (Vec<i32>, Vec<i32>)) {
        if dad.len() < 4 {
            (copy_genome(dad), copy_genome(mom))
        } else {
            match partially_matched_crossover(rng, dad, mom) {
                Ok(offspring) => {
                    proof {
                        let (boy, girl) = (offspring.0@, offspring.1@);
                        if is_permutation(dad@) && is_permutation(mom@) {
                            lemma_permutations_are_rearrangements(dad@, mom@);
                            let (s, e) = choose|s: int, e: int|
                                {
                                    &&& 1 <= s < dad@.len() / 2 <= e <= dad@.len() - 2
                                    &&& #[trigger] matched_offspring(dad@, mom@, s, e, boy)
                                    &&& matched_offspring(mom@, dad@, s, e, girl)
                                };
                            lemma_rearranged_permutation(dad@, boy);
                            lemma_rearranged_permutation(mom@, girl);
                        }
                    }
                    offspring
                },
                Err(_) => {
                    proof {
                        if is_permutation(dad@) && is_permutation(mom@) {
                            lemma_permutations_are_rearrangements(dad@, mom@);
                        }
                    }
                    (copy_genome(dad), copy_genome(mom))
                },
            }
        }
    }

    fn mutate(&self, rng: &mut StdRng, genome: &mut Vec<i32>, probability: u32, range: &Range<i32>) {
        swap_position(rng, genome, probability, range)
    }
}

/// For bit strings, the diversity metric is zero exactly when all genomes of
/// the population are identical.
pub proof fn lemma_bit_diversity_zero_iff_identical(p: Population<u8, BitStringOperators>)
    requires
        p.wf(),
    ensures
        p.diversity() == 0 <==> forall|i: int, j: int|
            0 <= i < p.individuals@.len() && 0 <= j < p.individuals@.len() ==> #[trigger] p.individuals@[i].genome@
                == #[trigger] p.individuals@[j].genome@,
{
    lemma_diversity_zero_iff_no_distance(p);
    let n = p.individuals@.len() as int;
    assert forall|i: int, j: int| 0 <= i < n && 0 <= j < n implies (p.pair_distance(i, j) == 0
        <==> p.individuals@[i].genome@ == p.individuals@[j].genome@) by {
        assert(p.fits(p.individuals@[i].genome@));
        assert(p.fits(p.individuals@[j].genome@));
        lemma_hamming_laws(p.individuals@[i].genome@, p.individuals@[j].genome@);
    }
    if p.diversity() == 0 {
        assert forall|i: int, j: int| 0 <= i < n && 0 <= j < n implies #[trigger] p.individuals@[i].genome@
            == #[trigger] p.individuals@[j].genome@ by {
            assert(p.pair_distance(i, j) == 0);
        }
    } else {
        let (i, j) = choose|i: int, j: int| 0 <= i < n && 0 <= j < n && #[trigger] p.pair_distance(i, j) != 0;
        assert(p.individuals@[i].genome@ != p.individuals@[j].genome@);
    }
}

} // verus!
