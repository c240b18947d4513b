//! The population engine: individuals, construction, and the per-generation
//! step (evaluation, statistics, fitness sharing, linear scaling, tournament
//! selection, crossover, mutation, generation-gap and crowding replacement,
//! elitism).

use vstd::prelude::*;
use crate::fixed::{floor_div, floor_div_i128, FIXED_ONE, MAX_FITNESS, MAX_GENOME_LENGTH, MAX_POPULATION_SIZE};
use crate::helpers::Range;
use crate::operators::{is_permutation, Gene, GeneticOperators};
use crate::random::{coin, draw_below, random_index, sample_indices, PROBABILITY_ONE};
use crate::selection::{all_non_negative, as_ints, is_roulette_slot, is_tournament_winner, prefix_sum, roulette_pick, tournament_pick, tournament_winner};
use rand::rngs::StdRng;

verus! {

/// One candidate solution: a genome of fixed length.
pub struct Individual<T> {
    pub genome: Vec<T>,
}

/// A fresh vector holding the same genes.
pub fn copy_genome<T: Copy>(genome: &Vec<T>) -> (r: Vec<T>)
    ensures
        r@ == genome@,
{
    let mut r: Vec<T> = Vec::new();
    let mut i: usize = 0;
    while i < genome.len()
        invariant
            i <= genome@.len(),
            r@ == genome@.subrange(0, i as int),
        decreases genome@.len() - i,
    {
        r.push(genome[i]);
        i = i + 1;
        proof {
            assert(r@ =~= genome@.subrange(0, i as int));
        }
    }
    proof {
        assert(r@ =~= genome@);
    }
    r
}

impl<T: Gene> Individual<T> {
    /// `size` genes drawn independently and uniformly from the range.
    pub fn new(rng: &mut StdRng, size: usize, range: &Range<T>) -> (r: Individual<T>)
        requires
            range.start.value() <= range.end.value(),
        ensures
            r.genome@.len() == size,
            forall|i: int|
                0 <= i < size ==> range.start.value() <= #[trigger] r.genome@[i].value() <= range.end.value(),
    {
        let mut genome: Vec<T> = Vec::new();
        let mut i: usize = 0;
        while i < size
            invariant
                range.start.value() <= range.end.value(),
                i <= size,
                genome@.len() == i,
                forall|k: int|
                    0 <= k < i ==> range.start.value() <= #[trigger] genome@[k].value() <= range.end.value(),
            decreases size - i,
        {
            let value = T::sample(rng, range);
            genome.push(value);
            i = i + 1;
        }
        Individual { genome: genome }
    }

    /// An individual with a copy of this genome.
    pub fn duplicate(&self) -> (r: Individual<T>)
        ensures
            r.genome@ == self.genome@,
    {
        Individual { genome: copy_genome(&self.genome) }
    }
}

impl Individual<i32> {
    /// A uniformly random permutation of `0 .. size`.
    pub fn new_ordered(rng: &mut StdRng, size: usize) -> (r: Individual<i32>)
        requires
            size <= 0x7fff_ffff,
        ensures
            r.genome@.len() == size,
            is_permutation(r.genome@),
    {
        let order = sample_indices(rng, size, size);
        let mut genome: Vec<i32> = Vec::new();
        let mut i: usize = 0;
        while i < size
            invariant
                size <= 0x7fff_ffff,
                order@.len() == size,
                forall|k: int| 0 <= k < size ==> order@[k] < size,
                forall|a: int, b: int| 0 <= a < b < size ==> order@[a] != order@[b],
                i <= size,
                genome@.len() == i,
                forall|k: int| 0 <= k < i ==> #[trigger] genome@[k] == order@[k] as int,
            decreases size - i,
        {
            genome.push(order[i] as i32);
            i = i + 1;
        }
        proof {
            assert forall|a: int, b: int| 0 <= a < b < genome@.len() implies #[trigger] genome@[a].value()
                != #[trigger] genome@[b].value() by {
                assert(order@[a] != order@[b]);
            }
        }
        Individual { genome: genome }
    }
}

/// Why a population could not be built.
pub enum ConfigurationError {
    /// The population would hold no individual.
    EmptyPopulation,
    /// Genomes shorter than two genes leave no internal crossover point.
    GenomeTooShort,
    /// The crowding factor must be smaller than the population size.
    CrowdingFactorTooLarge,
    /// The gene range is empty (its start lies above its end).
    EmptyRange,
    /// More individuals than `MAX_POPULATION_SIZE`.
    PopulationTooLarge,
    /// Genomes longer than `MAX_GENOME_LENGTH`.
    GenomeTooLong,
}

/// A population, its configuration and its per-generation history.
///
/// Fitness values, and the history of best and average fitness and of
/// diversity, are fixed-point integers (see `FIXED_ONE`); probabilities are in
/// parts per million.
pub struct Population<T, P> {
    pub individuals: Vec<Individual<T>>,
    pub fitnesses: Vec<i64>,
    pub best_individual_in_generation: Vec<Individual<T>>,
    pub best_fitness_in_generation: Vec<i64>,
    pub average_fitness_in_generation: Vec<i64>,
    pub diversity_in_generation: Vec<i64>,
    pub genome_length: usize,
    pub crossover_probability: u32,
    pub mutation_probability: u32,
    pub has_elitism: bool,
    pub has_scaling: bool,
    pub has_generation_gap: bool,
    pub has_fitness_sharing: bool,
    pub crowding_factor: usize,
    /// The population was built of permutations.
    pub ordered: bool,
    pub range: Range<T>,
    pub operators: P,
}

/// The sequence of genomes of a sequence of individuals.
pub open spec fn genomes<T>(individuals: Seq<Individual<T>>) -> Seq<Seq<T>> {
    individuals.map_values(|ind: Individual<T>| ind.genome@)
}


/// The sum of a sequence of integers.
pub open spec fn seq_sum(values: Seq<int>) -> int
    decreases values.len(),
{
    if values.len() == 0 {
        0
    } else {
        seq_sum(values.drop_last()) + values.last()
    }
}

/// The first index of the greatest value among the first `n`.
pub open spec fn first_max_index_upto(values: Seq<int>, n: int) -> int
    decreases n,
{
    if n <= 1 {
        0
    } else {
        let previous = first_max_index_upto(values, n - 1);
        if values[n - 1] > values[previous] {
            n - 1
        } else {
            previous
        }
    }
}

/// The first index of the greatest value.
pub open spec fn first_max_index(values: Seq<int>) -> int {
    first_max_index_upto(values, values.len() as int)
}

proof fn lemma_first_max_index(values: Seq<int>, n: int)
    requires
        1 <= n <= values.len(),
    ensures
        0 <= first_max_index_upto(values, n) < n,
        forall|k: int| 0 <= k < n ==> #[trigger] values[k] <= values[first_max_index_upto(values, n)],
        forall|k: int| 0 <= k < first_max_index_upto(values, n) ==> #[trigger] values[k] < values[first_max_index_upto(values, n)],
    decreases n,
{
    if n > 1 {
        lemma_first_max_index(values, n - 1);
    }
}

/// The largest value.
pub open spec fn seq_max(values: Seq<int>) -> int {
    values[first_max_index(values)]
}

impl<T: Gene, P: GeneticOperators<T>> Population<T, P> {
    /// The population's invariant: `N` individuals with `N` fitness values,
    /// every genome of the configured length (and a permutation, for an ordered
    /// population whose operators keep permutations), and histories of equal
    /// length.
    pub open spec fn wf(&self) -> bool {
        &&& 1 <= self.individuals@.len() <= MAX_POPULATION_SIZE
        &&& self.fitnesses@.len() == self.individuals@.len()
        &&& 2 <= self.genome_length <= MAX_GENOME_LENGTH
        &&& forall|i: int| 0 <= i < self.individuals@.len() ==> self.fits((#[trigger] self.individuals@[i]).genome@)
        &&& forall|i: int| 0 <= i < self.fitnesses@.len() ==> -MAX_FITNESS <= #[trigger] self.fitnesses@[i] <= MAX_FITNESS
        &&& self.crowding_factor < self.individuals@.len()
        &&& self.range.start.value() <= self.range.end.value()
        &&& self.best_fitness_in_generation@.len() == self.best_individual_in_generation@.len()
        &&& self.average_fitness_in_generation@.len() == self.best_individual_in_generation@.len()
        &&& self.diversity_in_generation@.len() == self.best_individual_in_generation@.len()
        &&& forall|i: int|
            0 <= i < self.best_individual_in_generation@.len() ==> (
            #[trigger] self.best_individual_in_generation@[i]).genome@.len() == self.genome_length
    }

    /// A genome of the configured length; a permutation, for an ordered
    /// population whose operators keep permutations.
    pub open spec fn fits(&self, genome: Seq<T>) -> bool {
        &&& genome.len() == self.genome_length
        &&& self.ordered && self.operators.keeps_permutations() ==> is_permutation(genome)
    }

    /// The fitness of each individual, as the fitness operator gives it.
    pub open spec fn raw_fitnesses(&self) -> Seq<int> {
        Seq::new(self.individuals@.len(), |i: int| self.operators.fitness_of(self.individuals@[i].genome@, self.range))
    }

    /// The distance between individuals `i` and `j`.
    pub open spec fn pair_distance(&self, i: int, j: int) -> int {
        self.operators.distance_of(self.individuals@[i].genome@, self.individuals@[j].genome@, self.range)
    }

    /// `sum of pair_distance(i, j)` for `i <= j < m`.
    pub open spec fn row_distance(&self, i: int, m: int) -> int
        decreases m - i,
    {
        if m <= i {
            0
        } else {
            self.row_distance(i, m - 1) + self.pair_distance(i, m - 1)
        }
    }

    /// `sum of row_distance(i, N)` for `i < k`.
    pub open spec fn diversity_upto(&self, k: int) -> int
        decreases k,
    {
        if k <= 0 {
            0
        } else {
            self.diversity_upto(k - 1) + self.row_distance(k - 1, self.individuals@.len() as int)
        }
    }

    /// The diversity metric: the sum of the distances of all unordered pairs
    /// `(i, j)` with `i <= j`, self-pairs included.
    pub open spec fn diversity(&self) -> int {
        self.diversity_upto(self.individuals@.len() as int)
    }
}

/// Every value lies within `[-bound, bound]`.
pub open spec fn bounded_by(values: Seq<int>, bound: int) -> bool {
    forall|i: int| 0 <= i < values.len() ==> -bound <= #[trigger] values[i] <= bound
}

proof fn lemma_as_ints_prefix(values: Seq<i64>, i: int)
    requires
        0 <= i < values.len(),
    ensures
        as_ints(values).subrange(0, i + 1).drop_last() == as_ints(values).subrange(0, i),
        as_ints(values).subrange(0, i + 1).last() == values[i] as int,
{
    assert(as_ints(values).subrange(0, i + 1).drop_last() =~= as_ints(values).subrange(0, i));
}

/// The average of the fitness values, rounded down.
pub fn average_fitness(fitnesses: &Vec<i64>) -> (r: i64)
    requires
        1 <= fitnesses@.len() <= MAX_POPULATION_SIZE,
        bounded_by(as_ints(fitnesses@), MAX_FITNESS as int),
    ensures
        r == floor_div(seq_sum(as_ints(fitnesses@)), fitnesses@.len() as int),
        -MAX_FITNESS <= r <= MAX_FITNESS,
{
    let n = fitnesses.len();
    let mut sum: i64 = 0;
    let mut i: usize = 0;
    while i < n
        invariant
            n == fitnesses@.len(),
            1 <= n <= MAX_POPULATION_SIZE,
            bounded_by(as_ints(fitnesses@), MAX_FITNESS as int),
            i <= n,
            sum == seq_sum(as_ints(fitnesses@).subrange(0, i as int)),
            -(i * MAX_FITNESS) <= sum <= i * MAX_FITNESS,
        decreases n - i,
    {
        proof {
            lemma_as_ints_prefix(fitnesses@, i as int);
            assert(-(i * MAX_FITNESS) - MAX_FITNESS >= -0x7000_0000_0000_0000 && i * MAX_FITNESS + MAX_FITNESS
                <= 0x7000_0000_0000_0000) by (nonlinear_arith)
                requires i < 1_048_576, MAX_FITNESS == 1_099_511_627_776;
            assert(as_ints(fitnesses@)[i as int] == fitnesses@[i as int]);
        }
        sum = sum + fitnesses[i];
        i = i + 1;
        proof {
            assert(-(i * MAX_FITNESS) == -((i - 1) * MAX_FITNESS) - MAX_FITNESS) by (nonlinear_arith);
        }
    }
    proof {
        assert(as_ints(fitnesses@).subrange(0, n as int) =~= as_ints(fitnesses@));
        assert(floor_div(sum as int, n as int) <= MAX_FITNESS && floor_div(sum as int, n as int) >= -MAX_FITNESS)
            by (nonlinear_arith)
            requires -(n * MAX_FITNESS) <= sum <= n * MAX_FITNESS, n >= 1, MAX_FITNESS > 0;
    }
    floor_div_i128(sum as i128, n as i128) as i64
}

/// The index of the first greatest fitness value.
pub fn fittest_index(fitnesses: &Vec<i64>) -> (r: usize)
    requires
        fitnesses@.len() >= 1,
    ensures
        r == first_max_index(as_ints(fitnesses@)),
        r < fitnesses@.len(),
{
    let ghost values = as_ints(fitnesses@);
    let mut best: usize = 0;
    let mut i: usize = 1;
    while i < fitnesses.len()
        invariant
            values == as_ints(fitnesses@),
            1 <= i <= fitnesses@.len(),
            best == first_max_index_upto(values, i as int),
            best < i,
        decreases fitnesses@.len() - i,
    {
        if fitnesses[i] > fitnesses[best] {
            best = i;
        }
        i = i + 1;
    }
    best
}

impl<T: Gene, P: GeneticOperators<T>> Population<T, P> {
    /// The fitness of every individual under the fitness operator.
    pub fn evaluate(&self) -> (r: Vec<i64>)
        requires
            1 <= self.individuals@.len() <= MAX_POPULATION_SIZE,
            2 <= self.genome_length <= MAX_GENOME_LENGTH,
            forall|i: int| 0 <= i < self.individuals@.len() ==> self.fits((#[trigger] self.individuals@[i]).genome@),
        ensures
            as_ints(r@) == self.raw_fitnesses(),
            r@.len() == self.individuals@.len(),
            bounded_by(as_ints(r@), MAX_FITNESS as int),
            forall|k: int| 0 <= k < r@.len() ==> -MAX_FITNESS <= #[trigger] r@[k] <= MAX_FITNESS,
    {
        let n = self.individuals.len();
        let mut r: Vec<i64> = Vec::new();
        let mut i: usize = 0;
        while i < n
            invariant
                n == self.individuals@.len(),
                self.genome_length <= MAX_GENOME_LENGTH,
                forall|i: int| 0 <= i < self.individuals@.len() ==> self.fits((#[trigger] self.individuals@[i]).genome@),
                i <= n,
                r@.len() == i,
                forall|k: int| 0 <= k < i ==> #[trigger] r@[k] == self.raw_fitnesses()[k],
                forall|k: int| 0 <= k < i ==> -MAX_FITNESS <= #[trigger] r@[k] <= MAX_FITNESS,
            decreases n - i,
        {
            proof {
                assert(self.fits(self.individuals@[i as int].genome@));
            }
            let f = self.operators.fitness(&self.individuals[i].genome, &self.range);
            r.push(f);
            i = i + 1;
        }
        proof {
            assert(as_ints(r@) =~= self.raw_fitnesses());
            assert forall|k: int| 0 <= k < as_ints(r@).len() implies -MAX_FITNESS <= #[trigger] as_ints(r@)[k]
                <= MAX_FITNESS by {
                assert(as_ints(r@)[k] == r@[k]);
            }
        }
        r
    }

    /// Re-evaluates the fitness of every individual.
    pub fn compute_fitnesses(&mut self)
        requires
            old(self).wf(),
        ensures
            final(self).wf(),
            as_ints(final(self).fitnesses@) == old(self).raw_fitnesses(),
            *final(self) == (Population { fitnesses: final(self).fitnesses, ..*old(self) }),
    {
        let f = self.evaluate();
        self.fitnesses = f;
    }

    /// The index of the fittest individual under the current fitness values
    /// (the first one, on ties).
    pub fn get_fittest_individual(&self) -> (r: usize)
        requires
            self.wf(),
        ensures
            r == first_max_index(as_ints(self.fitnesses@)),
            r < self.individuals@.len(),
    {
        fittest_index(&self.fitnesses)
    }

    /// The diversity metric of the population.
    pub fn calculate_diversity(&self) -> (r: i64)
        requires
            self.wf(),
        ensures
            r == self.diversity(),
            0 <= r,
    {
        let n = self.individuals.len();
        let mut total: i64 = 0;
        let mut i: usize = 0;
        while i < n
            invariant
                self.wf(),
                n == self.individuals@.len(),
                i <= n,
                total == self.diversity_upto(i as int),
                0 <= total <= i * (n * FIXED_ONE),
            decreases n - i,
        {
            let mut row: i64 = 0;
            let mut j: usize = i;
            while j < n
                invariant
                    self.wf(),
                    n == self.individuals@.len(),
                    i < n,
                    i <= j <= n,
                    row == self.row_distance(i as int, j as int),
                    0 <= row <= (j - i) * FIXED_ONE,
                decreases n - j,
            {
                proof {
                    self.operators.lemma_distance_laws(
                        self.individuals@[i as int].genome@,
                        self.individuals@[j as int].genome@,
                        self.range,
                    );
                    assert((j - i) * FIXED_ONE <= 0x10_0000_0000_0000) by (nonlinear_arith)
                        requires j - i <= 1_048_576, FIXED_ONE == 1_000_000;
                }
                let d = self.operators.distance(&self.individuals[i].genome, &self.individuals[j].genome, &self.range);
                row = row + d;
                j = j + 1;
                proof {
                    assert((j - i) * FIXED_ONE == (j - 1 - i) * FIXED_ONE + FIXED_ONE) by (nonlinear_arith);
                }
            }
            proof {
                assert(row <= n * FIXED_ONE) by (nonlinear_arith)
                    requires row <= (n - i) * FIXED_ONE, i >= 0, FIXED_ONE > 0;
                assert(i * (n * FIXED_ONE) + n * FIXED_ONE <= 0x1000_0000_0000_0000) by (nonlinear_arith)
                    requires i < n, n <= 1_048_576, FIXED_ONE == 1_000_000;
            }
            total = total + row;
            i = i + 1;
            proof {
                assert(i * (n * FIXED_ONE) == (i - 1) * (n * FIXED_ONE) + n * FIXED_ONE) by (nonlinear_arith);
            }
        }
        total
    }
}

/// The sharing radius `sigma = 0.01`, in fixed point.
pub const SHARING_SIGMA: i64 = 10_000;

/// The sharing function `1 - (d / sigma)^2` for `d < sigma`, else 0, in
/// fixed point.
pub open spec fn sharing_weight(d: int) -> int {
    if d < SHARING_SIGMA {
        FIXED_ONE - d * d * FIXED_ONE / (SHARING_SIGMA * SHARING_SIGMA)
    } else {
        0
    }
}

/// A fitness value divided by its niche count, the count floored at one.
pub open spec fn shared_fitness(fitness: int, niche: int) -> int {
    floor_div(fitness * FIXED_ONE, if niche < FIXED_ONE { FIXED_ONE as int } else { niche })
}

proof fn lemma_sharing_weight_bounds(d: int)
    requires
        0 <= d,
    ensures
        0 <= sharing_weight(d) <= FIXED_ONE,
{
    if d < SHARING_SIGMA {
        assert(0 <= d * d * FIXED_ONE / (SHARING_SIGMA * SHARING_SIGMA) <= FIXED_ONE) by (nonlinear_arith)
            requires 0 <= d < 10_000, SHARING_SIGMA == 10_000, FIXED_ONE == 1_000_000;
    }
}

proof fn lemma_division_shrinks(f: int, q: int, bound: int)
    requires
        -bound <= f <= bound,
        q >= FIXED_ONE,
    ensures
        -bound <= floor_div(f * FIXED_ONE, q) <= bound,
{
    let x = f * FIXED_ONE;
    vstd::arithmetic::div_mod::lemma_fundamental_div_mod(x, q);
    let d = x / q;
    let m = x % q;
    assert(-bound <= d <= bound) by (nonlinear_arith)
        requires q * d + m == x, 0 <= m < q, x == f * FIXED_ONE, q >= FIXED_ONE, FIXED_ONE > 0, -bound <= f <= bound;
}

/// The smallest of the first `n` values.
pub open spec fn min_upto(values: Seq<int>, n: int) -> int
    decreases n,
{
    if n <= 1 {
        values[0]
    } else {
        let previous = min_upto(values, n - 1);
        if values[n - 1] < previous {
            values[n - 1]
        } else {
            previous
        }
    }
}

/// The smallest value.
pub open spec fn seq_min(values: Seq<int>) -> int {
    min_upto(values, values.len() as int)
}

proof fn lemma_min_upto_bound(values: Seq<int>, n: int, bound: int)
    requires
        1 <= n <= values.len(),
        bounded_by(values, bound),
    ensures
        -bound <= min_upto(values, n) <= bound,
    decreases n,
{
    if n > 1 {
        lemma_min_upto_bound(values, n - 1, bound);
    }
}

/// A value limited to `[-MAX_FITNESS, MAX_FITNESS]`.
pub open spec fn clamp_fitness(v: int) -> int {
    if v > MAX_FITNESS {
        MAX_FITNESS as int
    } else if v < -MAX_FITNESS {
        -MAX_FITNESS
    } else {
        v
    }
}

/// Linear scaling `f' = alpha * f + beta` with target multiplier `c` (fixed
/// point), given the minimum, maximum and average fitness. When the minimum
/// lies above `c * (average - maximum) / (c - 1)`, the average maps to itself
/// and the maximum to `c * average`; otherwise the average maps to itself and
/// the minimum to zero. A degenerate distribution (maximum or minimum equal
/// to the average) is left unscaled, and the result is limited to the fitness
/// bounds.
pub open spec fn linear_scaled(f: int, low: int, high: int, average: int, c: int) -> int {
    clamp_fitness(
        if high <= average {
            f
        } else if low * (c - FIXED_ONE) > c * (average - high) {
            floor_div(
                average * ((c - FIXED_ONE) * f + FIXED_ONE * high - c * average),
                FIXED_ONE * (high - average),
            )
        } else if average <= low {
            f
        } else {
            floor_div(average * (f - low), average - low)
        },
    )
}

/// The smallest fitness value.
pub fn minimum_fitness(fitnesses: &Vec<i64>) -> (r: i64)
    requires
        fitnesses@.len() >= 1,
    ensures
        r == seq_min(as_ints(fitnesses@)),
{
    let ghost values = as_ints(fitnesses@);
    let mut low = fitnesses[0];
    let mut i: usize = 1;
    while i < fitnesses.len()
        invariant
            values == as_ints(fitnesses@),
            1 <= i <= fitnesses@.len(),
            low == min_upto(values, i as int),
        decreases fitnesses@.len() - i,
    {
        if fitnesses[i] < low {
            low = fitnesses[i];
        }
        i = i + 1;
    }
    low
}

proof fn lemma_product_bound(a: int, b: int, x: int, y: int)
    requires
        -x <= a <= x,
        -y <= b <= y,
    ensures
        -(x * y) <= a * b <= x * y,
{
    assert(-(x * y) <= a * b <= x * y) by (nonlinear_arith)
        requires -x <= a <= x, -y <= b <= y;
}

/// One scaled fitness value (see `linear_scaled`).
pub fn scale_one(f: i64, low: i64, high: i64, average: i64, c: i64) -> (r: i64)
    requires
        -MAX_FITNESS <= f <= MAX_FITNESS,
        -MAX_FITNESS <= low <= MAX_FITNESS,
        -MAX_FITNESS <= high <= MAX_FITNESS,
        -MAX_FITNESS <= average <= MAX_FITNESS,
        FIXED_ONE < c <= 2 * FIXED_ONE,
    ensures
        r == linear_scaled(f as int, low as int, high as int, average as int, c as int),
        -MAX_FITNESS <= r <= MAX_FITNESS,
{
    let one: i128 = FIXED_ONE as i128;
    let ghost m: int = MAX_FITNESS as int;
    proof {
        lemma_product_bound(low as int, c - FIXED_ONE, m, 2 * FIXED_ONE);
        lemma_product_bound(c as int, average - high, 2 * FIXED_ONE, 2 * m);
        lemma_product_bound(c - FIXED_ONE, f as int, 2 * FIXED_ONE, m);
        lemma_product_bound(FIXED_ONE as int, high as int, 2 * FIXED_ONE, m);
        lemma_product_bound(c as int, average as int, 2 * FIXED_ONE, m);
        lemma_product_bound(average as int, f - low, m, 2 * m);
    }
    let raw: i128 = if high <= average {
        f as i128
    } else if (low as i128) * (c as i128 - one) > (c as i128) * (average as i128 - high as i128) {
        let inner: i128 = (c as i128 - one) * (f as i128) + one * (high as i128) - (c as i128) * (average as i128);
        proof {
            lemma_product_bound(average as int, inner as int, m, 3 * (2 * FIXED_ONE * m));
        }
        floor_div_i128((average as i128) * inner, one * (high as i128 - average as i128))
    } else if average <= low {
        f as i128
    } else {
        floor_div_i128((average as i128) * (f as i128 - low as i128), average as i128 - low as i128)
    };
    if raw > MAX_FITNESS as i128 {
        MAX_FITNESS
    } else if raw < -(MAX_FITNESS as i128) {
        -MAX_FITNESS
    } else {
        raw as i64
    }
}

impl<T: Gene, P: GeneticOperators<T>> Population<T, P> {
    /// The niche count of individual `i` over the first `m` individuals.
    pub open spec fn niche_upto(&self, i: int, m: int) -> int
        decreases m,
    {
        if m <= 0 {
            0
        } else {
            self.niche_upto(i, m - 1) + sharing_weight(self.pair_distance(i, m - 1))
        }
    }

    /// The niche count of individual `i`.
    pub open spec fn niche_count(&self, i: int) -> int {
        self.niche_upto(i, self.individuals@.len() as int)
    }

    /// The niche count of individual `i`, computed.
    fn compute_niche_count(&self, i: usize) -> (r: i64)
        requires
            self.wf(),
            i < self.individuals@.len(),
        ensures
            r == self.niche_count(i as int),
            0 <= r,
    {
        let n = self.individuals.len();
        let mut niche: i64 = 0;
        let mut j: usize = 0;
        while j < n
            invariant
                self.wf(),
                n == self.individuals@.len(),
                i < n,
                j <= n,
                niche == self.niche_upto(i as int, j as int),
                0 <= niche <= j * FIXED_ONE,
            decreases n - j,
        {
            proof {
                self.operators.lemma_distance_laws(
                    self.individuals@[i as int].genome@,
                    self.individuals@[j as int].genome@,
                    self.range,
                );
                lemma_sharing_weight_bounds(self.pair_distance(i as int, j as int));
                assert(j * FIXED_ONE + FIXED_ONE <= 0x10_0000_0000_0000) by (nonlinear_arith)
                    requires j < 1_048_576, FIXED_ONE == 1_000_000;
            }
            let d = self.operators.distance(&self.individuals[i].genome, &self.individuals[j].genome, &self.range);
            let weight: i64 = if d < SHARING_SIGMA {
                let w: i128 = (FIXED_ONE as i128) - (d as i128) * (d as i128) * (FIXED_ONE as i128) / ((
                SHARING_SIGMA as i128) * (SHARING_SIGMA as i128));
                w as i64
            } else {
                0
            };
            niche = niche + weight;
            j = j + 1;
            proof {
                assert(j * FIXED_ONE == (j - 1) * FIXED_ONE + FIXED_ONE) by (nonlinear_arith);
            }
        }
        niche
    }

    /// Fitness sharing: each fitness value divided by the individual's niche
    /// count, floored at one.
    pub fn apply_fitness_sharing(&mut self)
        requires
            old(self).wf(),
        ensures
            final(self).wf(),
            final(self).fitnesses@.len() == old(self).fitnesses@.len(),
            forall|i: int|
                0 <= i < old(self).fitnesses@.len() ==> #[trigger] final(self).fitnesses@[i] == shared_fitness(
                    old(self).fitnesses@[i] as int,
                    old(self).niche_count(i),
                ),
            *final(self) == (Population { fitnesses: final(self).fitnesses, ..*old(self) }),
    {
        let n = self.individuals.len();
        let mut shared: Vec<i64> = Vec::new();
        let mut i: usize = 0;
        while i < n
            invariant
                self.wf(),
                n == self.individuals@.len(),
                i <= n,
                shared@.len() == i,
                forall|k: int|
                    0 <= k < i ==> #[trigger] shared@[k] == shared_fitness(self.fitnesses@[k] as int, self.niche_count(k)),
                forall|k: int| 0 <= k < i ==> -MAX_FITNESS <= #[trigger] shared@[k] <= MAX_FITNESS,
            decreases n - i,
        {
            let niche = self.compute_niche_count(i);
            let q: i64 = if niche < FIXED_ONE { FIXED_ONE } else { niche };
            let f = self.fitnesses[i];
            proof {
                lemma_division_shrinks(f as int, q as int, MAX_FITNESS as int);
            }
            let v = floor_div_i128((f as i128) * (FIXED_ONE as i128), q as i128);
            shared.push(v as i64);
            i = i + 1;
        }
        self.fitnesses = shared;
    }

    /// Linear scaling of every fitness value with target multiplier `c`
    /// (fixed point), from the current minimum, maximum and average.
    pub fn apply_linear_scaling(&mut self, c: i64)
        requires
            old(self).wf(),
            FIXED_ONE < c <= 2 * FIXED_ONE,
        ensures
            final(self).wf(),
            final(self).fitnesses@.len() == old(self).fitnesses@.len(),
            forall|i: int|
                0 <= i < old(self).fitnesses@.len() ==> #[trigger] final(self).fitnesses@[i] == linear_scaled(
                    old(self).fitnesses@[i] as int,
                    seq_min(as_ints(old(self).fitnesses@)),
                    seq_max(as_ints(old(self).fitnesses@)),
                    floor_div(seq_sum(as_ints(old(self).fitnesses@)), old(self).fitnesses@.len() as int),
                    c as int,
                ),
            *final(self) == (Population { fitnesses: final(self).fitnesses, ..*old(self) }),
    {
        let n = self.fitnesses.len();
        let ghost values = as_ints(self.fitnesses@);
        proof {
            assert(bounded_by(values, MAX_FITNESS as int)) by {
                assert forall|i: int| 0 <= i < values.len() implies -MAX_FITNESS <= #[trigger] values[i]
                    <= MAX_FITNESS by {
                    assert(values[i] == self.fitnesses@[i]);
                }
            }
            lemma_min_upto_bound(values, n as int, MAX_FITNESS as int);
            lemma_first_max_index(values, n as int);
        }
        let average = average_fitness(&self.fitnesses);
        let low = minimum_fitness(&self.fitnesses);
        let top = fittest_index(&self.fitnesses);
        let high = self.fitnesses[top];
        let mut scaled: Vec<i64> = Vec::new();
        let mut i: usize = 0;
        while i < n
            invariant
                self.wf(),
                n == self.fitnesses@.len(),
                values == as_ints(self.fitnesses@),
                FIXED_ONE < c <= 2 * FIXED_ONE,
                -MAX_FITNESS <= low <= MAX_FITNESS,
                -MAX_FITNESS <= high <= MAX_FITNESS,
                -MAX_FITNESS <= average <= MAX_FITNESS,
                low == seq_min(values),
                high == seq_max(values),
                average == floor_div(seq_sum(values), n as int),
                i <= n,
                scaled@.len() == i,
                forall|k: int|
                    0 <= k < i ==> #[trigger] scaled@[k] == linear_scaled(
                        self.fitnesses@[k] as int,
                        low as int,
                        high as int,
                        average as int,
                        c as int,
                    ),
                forall|k: int| 0 <= k < i ==> -MAX_FITNESS <= #[trigger] scaled@[k] <= MAX_FITNESS,
            decreases n - i,
        {
            let v = scale_one(self.fitnesses[i], low, high, average, c);
            scaled.push(v);
            i = i + 1;
        }
        self.fitnesses = scaled;
    }
}

/// The configuration error, if any, of a population of `size` genomes of
/// `genome_size` genes with the given crowding factor and gene range.
pub open spec fn configuration_error(
    size: usize,
    genome_size: usize,
    crowding_factor: usize,
    range_is_empty: bool,
) -> Option<ConfigurationError> {
    if size == 0 {
        Some(ConfigurationError::EmptyPopulation)
    } else if size > MAX_POPULATION_SIZE {
        Some(ConfigurationError::PopulationTooLarge)
    } else if genome_size < 2 {
        Some(ConfigurationError::GenomeTooShort)
    } else if genome_size > MAX_GENOME_LENGTH {
        Some(ConfigurationError::GenomeTooLong)
    } else if crowding_factor >= size {
        Some(ConfigurationError::CrowdingFactorTooLarge)
    } else if range_is_empty {
        Some(ConfigurationError::EmptyRange)
    } else {
        None
    }
}

fn check_configuration<T: Gene>(size: usize, genome_size: usize, crowding_factor: usize, range: &Range<T>) -> (r:
    Option<ConfigurationError>)
    ensures
        r == configuration_error(size, genome_size, crowding_factor, range.start.value() > range.end.value()),
{
    if size == 0 {
        Some(ConfigurationError::EmptyPopulation)
    } else if size > MAX_POPULATION_SIZE {
        Some(ConfigurationError::PopulationTooLarge)
    } else if genome_size < 2 {
        Some(ConfigurationError::GenomeTooShort)
    } else if genome_size > MAX_GENOME_LENGTH {
        Some(ConfigurationError::GenomeTooLong)
    } else if crowding_factor >= size {
        Some(ConfigurationError::CrowdingFactorTooLarge)
    } else if !range.start.not_above(&range.end) {
        Some(ConfigurationError::EmptyRange)
    } else {
        None
    }
}

impl<T: Gene, P: GeneticOperators<T>> Population<T, P> {
    /// A freshly built population with the given settings and no history.
    pub open spec fn is_fresh(
        &self,
        size: usize,
        genome_size: usize,
        crossover_probability: u32,
        mutation_probability: u32,
        range: Range<T>,
        has_elitism: bool,
        has_scaling: bool,
        has_generation_gap: bool,
        has_fitness_sharing: bool,
        crowding_factor: usize,
        operators: P,
    ) -> bool {
        &&& self.wf()
        &&& self.individuals@.len() == size
        &&& self.genome_length == genome_size
        &&& self.crossover_probability == crossover_probability
        &&& self.mutation_probability == mutation_probability
        &&& self.range == range
        &&& self.has_elitism == has_elitism
        &&& self.has_scaling == has_scaling
        &&& self.has_generation_gap == has_generation_gap
        &&& self.has_fitness_sharing == has_fitness_sharing
        &&& self.crowding_factor == crowding_factor
        &&& self.operators == operators
        &&& as_ints(self.fitnesses@) == self.raw_fitnesses()
        &&& self.best_individual_in_generation@.len() == 0
    }

    /// A population of `size` individuals whose `genome_size` genes are drawn
    /// uniformly from `range`, each evaluated once; or the configuration
    /// error.
    pub fn new(
        rng: &mut StdRng,
        size: usize,
        genome_size: usize,
        crossover_probability: u32,
        mutation_probability: u32,
        range: Range<T>,
        has_elitism: bool,
        has_scaling: bool,
        has_generation_gap: bool,
        has_fitness_sharing: bool,
        crowding_factor: usize,
        operators: P,
    ) -> (r: Result<Population<T, P>, ConfigurationError>)
        ensures
            match r {
                Ok(p) => configuration_error(
                    size,
                    genome_size,
                    crowding_factor,
                    range.start.value() > range.end.value(),
                ) is None && p.is_fresh(
                    size,
                    genome_size,
                    crossover_probability,
                    mutation_probability,
                    range,
                    has_elitism,
                    has_scaling,
                    has_generation_gap,
                    has_fitness_sharing,
                    crowding_factor,
                    operators,
                ) && !p.ordered && forall|i: int, k: int|
                    0 <= i < size && 0 <= k < genome_size ==> range.start.value()
                        <= #[trigger] p.individuals@[i].genome@[k].value() <= range.end.value(),
                Err(e) => configuration_error(
                    size,
                    genome_size,
                    crowding_factor,
                    range.start.value() > range.end.value(),
                ) == Some(e),
            },
    {
        match check_configuration(size, genome_size, crowding_factor, &range) {
            Some(e) => {
                return Err(e);
            },
            None => {},
        }
        let mut individuals: Vec<Individual<T>> = Vec::new();
        let mut i: usize = 0;
        while i < size
            invariant
                range.start.value() <= range.end.value(),
                i <= size,
                individuals@.len() == i,
                forall|m: int| 0 <= m < i ==> (#[trigger] individuals@[m]).genome@.len() == genome_size,
                forall|m: int, k: int|
                    0 <= m < i && 0 <= k < genome_size ==> range.start.value()
                        <= #[trigger] individuals@[m].genome@[k].value() <= range.end.value(),
            decreases size - i,
        {
            individuals.push(Individual::new(rng, genome_size, &range));
            i = i + 1;
        }
        let mut population = Population {
            individuals: individuals,
            fitnesses: Vec::new(),
            best_individual_in_generation: Vec::new(),
            best_fitness_in_generation: Vec::new(),
            average_fitness_in_generation: Vec::new(),
            diversity_in_generation: Vec::new(),
            genome_length: genome_size,
            crossover_probability: crossover_probability,
            mutation_probability: mutation_probability,
            has_elitism: has_elitism,
            has_scaling: has_scaling,
            has_generation_gap: has_generation_gap,
            has_fitness_sharing: has_fitness_sharing,
            crowding_factor: crowding_factor,
            ordered: false,
            range: range,
            operators: operators,
        };
        population.fitnesses = population.evaluate();
        Ok(population)
    }

    /// `amount` distinct random indices of individuals.
    pub fn select_random_n_indices(&self, rng: &mut StdRng, amount: usize) -> (r: Vec<usize>)
        requires
            amount <= self.individuals@.len(),
        ensures
            r@.len() == amount,
            forall|i: int| 0 <= i < r@.len() ==> r@[i] < self.individuals@.len(),
            forall|i: int, j: int| 0 <= i < j < r@.len() ==> r@[i] != r@[j],
    {
        sample_indices(rng, self.individuals.len(), amount)
    }

    /// Tournament selection among `k` distinct random individuals: the winner
    /// has the highest current fitness among them (the latest drawn, on ties).
    pub fn tournament(&self, rng: &mut StdRng, k: usize) -> (r: usize)
        requires
            self.wf(),
            1 <= k <= self.individuals@.len(),
        ensures
            r < self.individuals@.len(),
            is_tournament_winner(as_ints(self.fitnesses@), self.individuals@.len() as int, k as int, r as int),
    {
        let candidates = self.select_random_n_indices(rng, k);
        let r = tournament_pick(&self.fitnesses, &candidates);
        proof {
            assert(candidates@.len() == k);
            assert(r as int == tournament_winner(as_ints(self.fitnesses@), candidates@));
        }
        r
    }

    /// Tournament selection of size four (or the whole population, when it is
    /// smaller).
    pub fn select_fit_individual(&self, rng: &mut StdRng) -> (r: usize)
        requires
            self.wf(),
        ensures
            r < self.individuals@.len(),
            is_tournament_winner(
                as_ints(self.fitnesses@),
                self.individuals@.len() as int,
                tournament_size(self.individuals@.len() as int),
                r as int,
            ),
    {
        let k: usize = if self.individuals.len() < TOURNAMENT_SIZE { self.individuals.len() } else { TOURNAMENT_SIZE };
        self.tournament(rng, k)
    }

    /// Roulette selection: when every fitness value is non-negative and their
    /// sum is positive, the index whose slot of cumulative fitness holds a
    /// uniformly drawn ticket; otherwise a uniformly drawn index.
    pub fn roulette(&self, rng: &mut StdRng) -> (r: usize)
        requires
            self.wf(),
        ensures
            r < self.individuals@.len(),
            all_non_negative(self.fitnesses@) && prefix_sum(self.fitnesses@, self.fitnesses@.len() as int) > 0
                ==> exists|chance: int|
                0 <= chance < prefix_sum(self.fitnesses@, self.fitnesses@.len() as int) && #[trigger] is_roulette_slot(
                    self.fitnesses@,
                    chance,
                    r as int,
                ),
    {
        let n = self.fitnesses.len();
        let mut total: i64 = 0;
        let mut i: usize = 0;
        while i < n
            invariant
                self.wf(),
                n == self.fitnesses@.len(),
                i <= n,
                forall|k: int| 0 <= k < i ==> 0 <= #[trigger] self.fitnesses@[k],
                total == prefix_sum(self.fitnesses@, i as int),
                0 <= total <= i * MAX_FITNESS,
            decreases n - i,
        {
            if self.fitnesses[i] < 0 {
                return random_index(rng, n);
            }
            proof {
                assert(i * MAX_FITNESS + MAX_FITNESS <= 0x1000_0000_0000_0000) by (nonlinear_arith)
                    requires i < 1_048_576, MAX_FITNESS == 1_099_511_627_776;
            }
            total = total + self.fitnesses[i];
            i = i + 1;
            proof {
                assert(i * MAX_FITNESS == (i - 1) * MAX_FITNESS + MAX_FITNESS) by (nonlinear_arith);
            }
        }
        if total <= 0 {
            return random_index(rng, n);
        }
        let chance = draw_below(rng, total as u64);
        roulette_pick(&self.fitnesses, chance as i64)
    }
}

/// The number of candidates a tournament draws.
pub const TOURNAMENT_SIZE: usize = 4;

/// The size of the tournaments in a population of `n`: four, or `n` when
/// the population is smaller.
pub open spec fn tournament_size(n: int) -> int {
    if n < TOURNAMENT_SIZE {
        n
    } else {
        TOURNAMENT_SIZE as int
    }
}

impl<P: GeneticOperators<i32>> Population<i32, P> {
    /// A population of `size` random permutations of `0 .. genome_size`, each
    /// evaluated once; or the configuration error.
    pub fn new_ordered(
        rng: &mut StdRng,
        size: usize,
        genome_size: usize,
        crossover_probability: u32,
        mutation_probability: u32,
        range: Range<i32>,
        has_elitism: bool,
        has_scaling: bool,
        has_generation_gap: bool,
        has_fitness_sharing: bool,
        crowding_factor: usize,
        operators: P,
    ) -> (r: Result<Population<i32, P>, ConfigurationError>)
        ensures
            match r {
                Ok(p) => configuration_error(size, genome_size, crowding_factor, range.start > range.end) is None
                    && p.is_fresh(
                    size,
                    genome_size,
                    crossover_probability,
                    mutation_probability,
                    range,
                    has_elitism,
                    has_scaling,
                    has_generation_gap,
                    has_fitness_sharing,
                    crowding_factor,
                    operators,
                ) && p.ordered && forall|i: int| 0 <= i < size ==> is_permutation(#[trigger] p.individuals@[i].genome@),
                Err(e) => configuration_error(size, genome_size, crowding_factor, range.start > range.end) == Some(e),
            },
    {
        match check_configuration(size, genome_size, crowding_factor, &range) {
            Some(e) => {
                return Err(e);
            },
            None => {},
        }
        let mut individuals: Vec<Individual<i32>> = Vec::new();
        let mut i: usize = 0;
        while i < size
            invariant
                genome_size <= MAX_GENOME_LENGTH,
                i <= size,
                individuals@.len() == i,
                forall|m: int|
                    0 <= m < i ==> (#[trigger] individuals@[m]).genome@.len() == genome_size && is_permutation(
                        individuals@[m].genome@,
                    ),
            decreases size - i,
        {
            individuals.push(Individual::new_ordered(rng, genome_size));
            i = i + 1;
        }
        let mut population = Population {
            individuals: individuals,
            fitnesses: Vec::new(),
            best_individual_in_generation: Vec::new(),
            best_fitness_in_generation: Vec::new(),
            average_fitness_in_generation: Vec::new(),
            diversity_in_generation: Vec::new(),
            genome_length: genome_size,
            crossover_probability: crossover_probability,
            mutation_probability: mutation_probability,
            has_elitism: has_elitism,
            has_scaling: has_scaling,
            has_generation_gap: has_generation_gap,
            has_fitness_sharing: has_fitness_sharing,
            crowding_factor: crowding_factor,
            ordered: true,
            range: range,
            operators: operators,
        };
        population.fitnesses = population.evaluate();
        Ok(population)
    }
}

/// The progress `current / total` is still below 0.9.
pub open spec fn before_final_tenth(current_generation: int, total_generations: int) -> bool {
    10 * current_generation < 9 * total_generations
}

/// The number of individuals a generation gap replaces:
/// `ceil(fraction * size)`, where `fraction = ceil(10 * progress) / 10`.
pub open spec fn gap_count(current_generation: int, total_generations: int, size: int) -> int {
    let tenths = (10 * current_generation + total_generations - 1) / total_generations;
    (tenths * size + 9) / 10
}

/// `gap_count`, computed, for a progress below 0.9.
pub fn generation_gap_size(current_generation: usize, total_generations: usize, size: usize) -> (r: usize)
    requires
        0 < total_generations,
        before_final_tenth(current_generation as int, total_generations as int),
        size <= MAX_POPULATION_SIZE,
    ensures
        r == gap_count(current_generation as int, total_generations as int, size as int),
        r <= size,
{
    let c = current_generation as u128;
    let t = total_generations as u128;
    let tenths: u128 = (10 * c + t - 1) / t;
    proof {
        assert(tenths <= 9) by (nonlinear_arith)
            requires tenths as int == (10 * c + t - 1) as int / t as int, 10 * c < 9 * t, t > 0;
        assert((tenths * size + 9) / 10 <= size) by (nonlinear_arith)
            requires tenths <= 9, size >= 0;
    }
    ((tenths * size as u128 + 9) / 10) as usize
}

/// The genome is one of the genomes in `pool`.
pub open spec fn drawn_from<T>(genome: Seq<T>, pool: Seq<Individual<T>>) -> bool {
    exists|j: int| 0 <= j < pool.len() && #[trigger] pool[j].genome@ == genome
}

/// A record of the random outcomes of one generation step (see
/// `Population::traced_step`).
pub struct StepTrace<T> {
    /// The fitness values that drove selection.
    pub adjusted: Seq<int>,
    /// The tournament winner for each slot of the pool.
    pub winners: Seq<int>,
    /// The genomes of the pool after crossover.
    pub pool: Seq<Seq<T>>,
    /// The genomes of the pool after mutation.
    pub candidates: Seq<Seq<T>>,
    /// The candidates applied, in order.
    pub slots: Seq<int>,
    /// The slot each applied candidate overwrote.
    pub targets: Seq<int>,
}

/// Each value linearly scaled (see `linear_scaled`) from the minimum,
/// maximum and rounded-down average of the values.
pub open spec fn scaled_fitnesses(values: Seq<int>, c: int) -> Seq<int> {
    Seq::new(
        values.len(),
        |i: int|
            linear_scaled(values[i], seq_min(values), seq_max(values), floor_div(seq_sum(values), values.len() as int), c),
    )
}

impl<T: Gene, P: GeneticOperators<T>> Population<T, P> {
    /// The configuration is the same in both populations.
    pub open spec fn same_configuration(&self, other: &Self) -> bool {
        &&& self.genome_length == other.genome_length
        &&& self.crossover_probability == other.crossover_probability
        &&& self.mutation_probability == other.mutation_probability
        &&& self.has_elitism == other.has_elitism
        &&& self.has_scaling == other.has_scaling
        &&& self.has_generation_gap == other.has_generation_gap
        &&& self.has_fitness_sharing == other.has_fitness_sharing
        &&& self.crowding_factor == other.crowding_factor
        &&& self.ordered == other.ordered
        &&& self.range == other.range
        &&& self.operators == other.operators
    }

    /// The fitness of each value divided by its individual's niche count.
    pub open spec fn shared_fitnesses(&self, values: Seq<int>) -> Seq<int> {
        Seq::new(values.len(), |i: int| shared_fitness(values[i], self.niche_count(i)))
    }

    /// The fitness values that drive selection in a step: the evaluated
    /// fitness, shared while `early` (if sharing is enabled), then linearly
    /// scaled with multiplier `c` (if scaling is enabled and `1 < c <= 2`).
    pub open spec fn adjusted_fitnesses(&self, early: bool, c: int) -> Seq<int> {
        let raw = self.raw_fitnesses();
        let shared = if self.has_fitness_sharing && early {
            self.shared_fitnesses(raw)
        } else {
            raw
        };
        if self.has_scaling && FIXED_ONE < c <= 2 * FIXED_ONE {
            scaled_fitnesses(shared, c)
        } else {
            shared
        }
    }

    /// `boy` and `girl` are offspring that the crossover operator may give for
    /// `dad` and `mom` (see `GeneticOperators::offspring`): of their length,
    /// and permutations when it keeps them.
    pub open spec fn offspring_of(&self, dad: Seq<T>, mom: Seq<T>, boy: Seq<T>, girl: Seq<T>) -> bool {
        &&& self.operators.offspring(dad, mom, boy, girl)
        &&& boy.len() == dad.len()
        &&& girl.len() == dad.len()
        &&& self.operators.keeps_permutations() && is_permutation(dad) && is_permutation(mom) ==> is_permutation(boy)
            && is_permutation(girl)
    }

    /// Slot `m` of the recombined pool (and slot `m + 1`, when it exists):
    /// the winners' genomes, or their two offspring; never offspring at a
    /// crossover probability of zero, always at one of `PROBABILITY_ONE` or
    /// more.
    pub open spec fn paired(&self, winners: Seq<int>, pool: Seq<Seq<T>>, m: int) -> bool {
        let a = self.individuals@[winners[m]].genome@;
        if m + 1 < self.individuals@.len() {
            let b = self.individuals@[winners[m + 1]].genome@;
            let kept = pool[m] == a && pool[m + 1] == b;
            let crossed = self.offspring_of(a, b, pool[m], pool[m + 1]);
            if self.crossover_probability == 0 {
                kept
            } else if self.crossover_probability >= PROBABILITY_ONE {
                crossed
            } else {
                kept || crossed
            }
        } else {
            pool[m] == a
        }
    }

    /// Slot `i` of `next`: when some applied candidate `candidates[slots[j]]`
    /// targeted it (`targets[j] == i`), it holds one of those; otherwise it
    /// keeps this population's genome.
    pub open spec fn replaced_slot(
        &self,
        next: Seq<Individual<T>>,
        candidates: Seq<Seq<T>>,
        slots: Seq<int>,
        targets: Seq<int>,
        i: int,
    ) -> bool {
        if exists|j: int| 0 <= j < targets.len() && #[trigger] targets[j] == i {
            exists|j: int| 0 <= j < targets.len() && #[trigger] targets[j] == i && next[i].genome@ == candidates[slots[j]]
        } else {
            next[i].genome@ == self.individuals@[i].genome@
        }
    }

    /// One step from `self` to `next` at generation `current` of `total` with
    /// scaling multiplier `c`, as recorded in `t`:
    /// - `t.adjusted` is the fitness that drives selection;
    /// - each `t.winners[m]` wins a tournament of `tournament_size(N)`
    ///   distinct individuals under `t.adjusted`;
    /// - the pool `t.pool` pairs slots `(m, m + 1)` for even `m` (see `paired`);
    /// - each candidate is the pool's genome mutated, of the configured length,
    ///   and equal to it when the mutation probability is zero;
    /// - the candidates applied are `t.slots` (distinct): all of them in
    ///   order, or with a generation gap before 0.9, `gap_count` of them; the
    ///   slot each one overwrites is `t.targets`, its own slot unless crowding
    ///   is in force (`crowding_factor > 1` before 0.9);
    /// - every slot of `next` but the elite one (with elitism) is as
    ///   `replaced_slot` says.
    pub open spec fn traced_step(&self, next: &Self, t: StepTrace<T>, current: int, total: int, c: int) -> bool {
        let n = self.individuals@.len() as int;
        let early = before_final_tenth(current, total);
        let best = first_max_index(self.raw_fitnesses());
        &&& t.adjusted == self.adjusted_fitnesses(early, c)
        &&& t.winners.len() == n
        &&& forall|m: int|
            0 <= m < n ==> 0 <= #[trigger] t.winners[m] < n && is_tournament_winner(
                t.adjusted,
                n,
                tournament_size(n),
                t.winners[m],
            )
        &&& t.pool.len() == n
        &&& forall|m: int| 0 <= m < n && m % 2 == 0 ==> #[trigger] self.paired(t.winners, t.pool, m)
        &&& t.candidates.len() == n
        &&& forall|m: int| 0 <= m < n ==> self.fits(#[trigger] t.candidates[m])
        &&& forall|m: int|
            0 <= m < n ==> self.operators.mutation(t.pool[m], #[trigger] t.candidates[m], self.mutation_probability, self.range)
        &&& self.mutation_probability == 0 ==> t.candidates == t.pool
        &&& t.slots.len() == t.targets.len()
        &&& t.slots.len() == if self.has_generation_gap && early {
            gap_count(current, total, n)
        } else {
            n
        }
        &&& forall|j: int| 0 <= j < t.slots.len() ==> 0 <= #[trigger] t.slots[j] < n && 0 <= t.targets[j] < n
        &&& forall|j: int, k: int| 0 <= j < k < t.slots.len() ==> t.slots[j] != t.slots[k]
        &&& !(self.has_generation_gap && early) ==> forall|j: int| 0 <= j < n ==> #[trigger] t.slots[j] == j
        &&& !(self.crowding_factor > 1 && early) ==> t.targets == t.slots
        &&& forall|i: int|
            0 <= i < n && !(self.has_elitism && i == best) ==> #[trigger] self.replaced_slot(
                next.individuals@,
                t.candidates,
                t.slots,
                t.targets,
                i,
            )
    }

    /// What one generation step guarantees of the population `next` that it
    /// makes of `self`: the invariant and configuration are kept; each history
    /// grows by the statistics of the generation as it was evaluated (best
    /// fitness and its first individual, average fitness rounded down,
    /// diversity); the individuals are replaced as `traced_step` describes,
    /// for some outcome of the random draws; with elitism the fittest
    /// individual stays in its slot; with neither crossover nor mutation,
    /// every genome is one of the generation's genomes; and the fitness vector
    /// is that of the new individuals.
    pub open spec fn next_generation(&self, next: &Self, current: int, total: int, c: int) -> bool {
        let raw = self.raw_fitnesses();
        let best = first_max_index(raw);
        &&& next.wf()
        &&& next.same_configuration(self)
        &&& next.individuals@.len() == self.individuals@.len()
        &&& next.best_fitness_in_generation@.len() == self.best_fitness_in_generation@.len() + 1
        &&& next.best_fitness_in_generation@.drop_last() == self.best_fitness_in_generation@
        &&& next.best_fitness_in_generation@.last() == seq_max(raw)
        &&& next.best_individual_in_generation@.drop_last() == self.best_individual_in_generation@
        &&& next.best_individual_in_generation@.last().genome@ == self.individuals@[best].genome@
        &&& next.average_fitness_in_generation@.drop_last() == self.average_fitness_in_generation@
        &&& next.average_fitness_in_generation@.last() == floor_div(seq_sum(raw), raw.len() as int)
        &&& next.diversity_in_generation@.drop_last() == self.diversity_in_generation@
        &&& next.diversity_in_generation@.last() == self.diversity()
        &&& as_ints(next.fitnesses@) == next.raw_fitnesses()
        &&& exists|t: StepTrace<T>| #[trigger] self.traced_step(next, t, current, total, c)
        &&& self.has_elitism ==> next.individuals@[best].genome@ == self.individuals@[best].genome@
        &&& self.crossover_probability == 0 && self.mutation_probability == 0 ==> forall|i: int|
            0 <= i < next.individuals@.len() ==> drawn_from(#[trigger] next.individuals@[i].genome@, self.individuals@)
    }

    proof fn lemma_niche_depends_on_genomes(&self, other: &Self, i: int, m: int)
        requires
            self.individuals == other.individuals,
            self.operators == other.operators,
            self.range == other.range,
        ensures
            self.niche_upto(i, m) == other.niche_upto(i, m),
        decreases m,
    {
        if m > 0 {
            self.lemma_niche_depends_on_genomes(other, i, m - 1);
        }
    }

    /// Crossover of two slots of `individuals`, the lower slot as the father:
    /// the two offspring of the crossover operator.
    pub fn crossover(
        &self,
        rng: &mut StdRng,
        individuals: &Vec<Individual<T>>,
        index_dad: usize,
        index_mom: usize,
    ) -> (r: (Vec<T>, Vec<T>))
        requires
            self.wf(),
            index_dad != index_mom,
            index_dad < individuals@.len(),
            index_mom < individuals@.len(),
            self.fits(individuals@[index_dad as int].genome@),
            self.fits(individuals@[index_mom as int].genome@),
        ensures
            ({
                let low = if index_dad < index_mom { index_dad } else { index_mom };
                let high = if index_dad < index_mom { index_mom } else { index_dad };
                self.offspring_of(individuals@[low as int].genome@, individuals@[high as int].genome@, r.0@, r.1@)
            }),
    {
        let low = if index_dad < index_mom { index_dad } else { index_mom };
        let high = if index_dad < index_mom { index_mom } else { index_dad };
        self.operators.crossover(rng, &individuals[low].genome, &individuals[high].genome)
    }

    proof fn lemma_diversity_depends_on_genomes(&self, other: &Self, k: int)
        requires
            self.individuals == other.individuals,
            self.operators == other.operators,
            self.range == other.range,
        ensures
            self.diversity_upto(k) == other.diversity_upto(k),
        decreases k,
    {
        if k > 0 {
            self.lemma_diversity_depends_on_genomes(other, k - 1);
            self.lemma_row_depends_on_genomes(other, k - 1, self.individuals@.len() as int);
        }
    }

    proof fn lemma_row_depends_on_genomes(&self, other: &Self, i: int, m: int)
        requires
            self.individuals == other.individuals,
            self.operators == other.operators,
            self.range == other.range,
        ensures
            self.row_distance(i, m) == other.row_distance(i, m),
        decreases m - i,
    {
        if m > i {
            self.lemma_row_depends_on_genomes(other, i, m - 1);
        }
    }

    proof fn lemma_wf_bounded(&self)
        requires
            self.wf(),
        ensures
            bounded_by(as_ints(self.fitnesses@), MAX_FITNESS as int),
    {
        assert forall|i: int| 0 <= i < as_ints(self.fitnesses@).len() implies -MAX_FITNESS <= #[trigger] as_ints(
            self.fitnesses@,
        )[i] <= MAX_FITNESS by {
            assert(as_ints(self.fitnesses@)[i] == self.fitnesses@[i]);
        }
    }

    /// Crowding: among `crowding_factor` distinct random individuals, the one
    /// closest to `genome` (the latest drawn, on ties).
    pub fn most_similar(&self, rng: &mut StdRng, genome: &Vec<T>) -> (r: usize)
        requires
            self.wf(),
            1 <= self.crowding_factor,
            genome@.len() == self.genome_length,
        ensures
            r < self.individuals@.len(),
            exists|sample: Seq<usize>|
                {
                    &&& sample.len() == self.crowding_factor
                    &&& forall|i: int| 0 <= i < sample.len() ==> #[trigger] sample[i] < self.individuals@.len()
                    &&& forall|i: int, j: int| 0 <= i < j < sample.len() ==> sample[i] != sample[j]
                    &&& sample.contains(r)
                    &&& forall|i: int|
                        0 <= i < sample.len() ==> self.operators.distance_of(
                            self.individuals@[r as int].genome@,
                            genome@,
                            self.range,
                        ) <= self.operators.distance_of(
                            self.individuals@[#[trigger] sample[i] as int].genome@,
                            genome@,
                            self.range,
                        )
                },
    {
        let sample = self.select_random_n_indices(rng, self.crowding_factor);
        let mut best = sample[0];
        let ghost mut best_at: int = 0;
        proof {
            assert(self.fits(self.individuals@[best as int].genome@));
        }
        let mut best_distance = self.operators.distance(&self.individuals[best].genome, genome, &self.range);
        let mut i: usize = 1;
        while i < sample.len()
            invariant
                self.wf(),
                genome@.len() == self.genome_length,
                sample@.len() == self.crowding_factor,
                forall|k: int| 0 <= k < sample@.len() ==> sample@[k] < self.individuals@.len(),
                1 <= i <= sample@.len(),
                best < self.individuals@.len(),
                0 <= best_at < i,
                sample@[best_at] == best,
                best_distance == self.operators.distance_of(self.individuals@[best as int].genome@, genome@, self.range),
                forall|k: int|
                    0 <= k < i ==> best_distance <= self.operators.distance_of(
                        self.individuals@[#[trigger] sample@[k] as int].genome@,
                        genome@,
                        self.range,
                    ),
            decreases sample@.len() - i,
        {
            let j = sample[i];
            proof {
                assert(self.fits(self.individuals@[j as int].genome@));
            }
            let d = self.operators.distance(&self.individuals[j].genome, genome, &self.range);
            if d <= best_distance {
                best = j;
                best_distance = d;
                proof {
                    best_at = i as int;
                }
            }
            i = i + 1;
        }
        proof {
            assert(sample@[best_at] == best);
        }
        best
    }

    /// Advances the population by one generation.
    ///
    /// The fitness of every individual is evaluated and the generation's
    /// statistics are recorded; while the progress `current_generation /
    /// total_generations` is below 0.9, fitness sharing applies (if enabled);
    /// linear scaling with target multiplier `scaling_multiplier` (fixed point)
    /// applies if enabled and the multiplier lies in `(1, 2]`. Tournament selection fills a pool of candidates;
    /// each consecutive pair of the pool is recombined with the crossover
    /// probability; every candidate is mutated. The candidates then replace
    /// the population: all of them, or, with a generation gap before 0.9, a
    /// random subset of `gap_count` of them; with crowding before 0.9, each
    /// overwrites the most similar of `crowding_factor` random individuals
    /// rather than its own slot. With elitism the generation's fittest
    /// individual is finally restored to its slot, and the new individuals are
    /// evaluated.
    pub fn iterate_generation(
        &mut self,
        rng: &mut StdRng,
        current_generation: usize,
        total_generations: usize,
        scaling_multiplier: i64,
    )
        requires
            old(self).wf(),
            0 < total_generations,
        ensures
            old(self).next_generation(
                final(self),
                current_generation as int,
                total_generations as int,
                scaling_multiplier as int,
            ),
    {
        let ghost start = *self;
        let n = self.individuals.len();
        self.compute_fitnesses();
        proof {
            self.lemma_wf_bounded();
            lemma_first_max_index(as_ints(self.fitnesses@), n as int);
        }
        let average = average_fitness(&self.fitnesses);
        let best = self.get_fittest_individual();
        let best_fitness = self.fitnesses[best];
        let elite = self.individuals[best].duplicate();
        let ghost measured = *self;
        let diversity = self.calculate_diversity();
        let best_copy = self.individuals[best].duplicate();
        self.best_individual_in_generation.push(best_copy);
        self.best_fitness_in_generation.push(best_fitness);
        self.average_fitness_in_generation.push(average);
        self.diversity_in_generation.push(diversity);
        let early = (10 * current_generation as u128) < (9 * total_generations as u128);
        let ghost raw = start.raw_fitnesses();
        let ghost pushed = *self;
        assert(as_ints(self.fitnesses@) == raw);
        if self.has_fitness_sharing && early {
            self.apply_fitness_sharing();
            proof {
                assert forall|i: int| 0 <= i < n implies #[trigger] as_ints(self.fitnesses@)[i]
                    == start.shared_fitnesses(raw)[i] by {
                    pushed.lemma_niche_depends_on_genomes(&start, i, n as int);
                    assert(as_ints(pushed.fitnesses@)[i] == raw[i]);
                }
                assert(as_ints(self.fitnesses@) =~= start.shared_fitnesses(raw));
            }
        }
        let ghost shared_state = *self;
        if self.has_scaling && FIXED_ONE < scaling_multiplier && scaling_multiplier <= 2 * FIXED_ONE {
            self.apply_linear_scaling(scaling_multiplier);
            proof {
                assert(as_ints(self.fitnesses@) =~= scaled_fitnesses(as_ints(shared_state.fitnesses@), scaling_multiplier as int));
            }
        }
        let ghost evaluated = *self;
        let ghost adjusted = as_ints(self.fitnesses@);
        assert(adjusted == start.adjusted_fitnesses(early, scaling_multiplier as int));
        assert(evaluated.individuals == start.individuals);
        assert(evaluated.operators == start.operators);
        assert(evaluated.same_configuration(&start));
        // Selection into the pool of candidates.
        let ghost k = tournament_size(n as int);
        let ghost mut winners: Seq<int> = Seq::empty();
        let mut pool: Vec<Individual<T>> = Vec::new();
        let mut i: usize = 0;
        while i < n
            invariant
                self.wf(),
                *self == evaluated,
                adjusted == as_ints(self.fitnesses@),
                k == tournament_size(n as int),
                n == self.individuals@.len(),
                self.individuals == start.individuals,
                i <= n,
                pool@.len() == i,
                winners.len() == i,
                forall|m: int|
                    0 <= m < i ==> 0 <= #[trigger] winners[m] < n && is_tournament_winner(adjusted, n as int, k, winners[m])
                        && pool@[m].genome@ == start.individuals@[winners[m]].genome@,
                forall|m: int| 0 <= m < i ==> self.fits((#[trigger] pool@[m]).genome@),
                forall|m: int| 0 <= m < i ==> drawn_from((#[trigger] pool@[m]).genome@, start.individuals@),
            decreases n - i,
        {
            let chosen = self.select_fit_individual(rng);
            let copy = self.individuals[chosen].duplicate();
            proof {
                assert(self.fits(self.individuals@[chosen as int].genome@));
                assert(start.individuals@[chosen as int].genome@ == copy.genome@);
                winners = winners.push(chosen as int);
            }
            pool.push(copy);
            i = i + 1;
        }
        // Crossover of consecutive pairs.
        let ghost selected = pool@;
        let mut i: usize = 0;
        while i + 1 < n
            invariant
                i <= n,
                i % 2 == 0,
                self.wf(),
                *self == evaluated,
                self.operators == start.operators,
                self.crossover_probability == start.crossover_probability,
                n == self.individuals@.len(),
                self.individuals == start.individuals,
                pool@.len() == n,
                selected.len() == n,
                winners.len() == n,
                forall|m: int| 0 <= m < n ==> 0 <= #[trigger] winners[m] < n,
                forall|m: int| 0 <= m < n ==> (#[trigger] selected[m]).genome@ == start.individuals@[winners[m]].genome@,
                forall|m: int| i <= m < n ==> #[trigger] pool@[m] == selected[m],
                forall|m: int| 0 <= m < i && m % 2 == 0 ==> #[trigger] start.paired(winners, genomes(pool@), m),
                forall|m: int| 0 <= m < n ==> self.fits((#[trigger] pool@[m]).genome@),
                self.crossover_probability == 0 ==> forall|m: int|
                    0 <= m < n ==> drawn_from((#[trigger] pool@[m]).genome@, start.individuals@),
            decreases n - i,
        {
            let ghost before = pool@;
            if coin(rng, self.crossover_probability) {
                proof {
                    assert(self.fits(pool@[i as int].genome@));
                    assert(self.fits(pool@[i as int + 1].genome@));
                }
                proof {
                    assert(before[i as int] == selected[i as int]);
                    assert(before[i as int + 1] == selected[i as int + 1]);
                }
                let (boy, girl) = self.crossover(rng, &pool, i, i + 1);
                proof {
                    assert(self.offspring_of(before[i as int].genome@, before[i as int + 1].genome@, boy@, girl@));
                    assert(self.operators == start.operators);
                    assert(before[i as int].genome@ == start.individuals@[winners[i as int]].genome@);
                    assert(before[i as int + 1].genome@ == start.individuals@[winners[i as int + 1]].genome@);
                    assert(start.offspring_of(
                        start.individuals@[winners[i as int]].genome@,
                        start.individuals@[winners[i as int + 1]].genome@,
                        boy@,
                        girl@,
                    ));
                }
                let ghost boy_genome = boy@;
                let ghost girl_genome = girl@;
                pool.set(i, Individual { genome: boy });
                pool.set(i + 1, Individual { genome: girl });
                proof {
                    assert(genomes(pool@)[i as int] == boy_genome);
                    assert(genomes(pool@)[i as int + 1] == girl_genome);
                    assert(start.offspring_of(
                        start.individuals@[winners[i as int]].genome@,
                        start.individuals@[winners[i as int + 1]].genome@,
                        genomes(pool@)[i as int],
                        genomes(pool@)[i as int + 1],
                    ));
                    assert(start.paired(winners, genomes(pool@), i as int));
                }
            } else {
                proof {
                    assert(start.paired(winners, genomes(pool@), i as int));
                }
            }
            proof {
                assert forall|m: int| 0 <= m < i + 2 && m % 2 == 0 implies #[trigger] start.paired(
                    winners,
                    genomes(pool@),
                    m,
                ) by {
                    if m < i {
                        assert(start.paired(winners, genomes(before), m));
                        assert(genomes(before)[m] == genomes(pool@)[m]);
                        assert(genomes(before)[m + 1] == genomes(pool@)[m + 1]);
                    }
                }
                assert forall|m: int| 0 <= m < n implies self.fits((#[trigger] pool@[m]).genome@) by {
                    if m != i && m != i + 1 {
                        assert(pool@[m] == before[m]);
                    }
                }
            }
            i = i + 2;
        }
        proof {
            if i < n {
                assert(i + 1 == n);
                assert(pool@[i as int] == selected[i as int]);
                assert(start.paired(winners, genomes(pool@), i as int));
            }
            assert forall|m: int| 0 <= m < n && m % 2 == 0 implies #[trigger] start.paired(winners, genomes(pool@), m) by {
                if m >= i {
                    assert(m == i);
                }
            }
        }
        // Mutation of every candidate.
        let mut candidates: Vec<Individual<T>> = Vec::new();
        let mut i: usize = 0;
        while i < n
            invariant
                self.wf(),
                *self == evaluated,
                n == self.individuals@.len(),
                pool@.len() == n,
                forall|m: int| 0 <= m < n ==> self.fits((#[trigger] pool@[m]).genome@),
                self.crossover_probability == 0 ==> forall|m: int|
                    0 <= m < n ==> drawn_from((#[trigger] pool@[m]).genome@, start.individuals@),
                i <= n,
                candidates@.len() == i,
                forall|m: int| 0 <= m < i ==> self.fits((#[trigger] candidates@[m]).genome@),
                self.mutation_probability == 0 ==> forall|m: int|
                    0 <= m < i ==> (#[trigger] candidates@[m]).genome@ == pool@[m].genome@,
                forall|m: int|
                    0 <= m < i ==> self.operators.mutation(
                        pool@[m].genome@,
                        (#[trigger] candidates@[m]).genome@,
                        self.mutation_probability,
                        self.range,
                    ),
                self.crossover_probability == 0 && self.mutation_probability == 0 ==> forall|m: int|
                    0 <= m < i ==> drawn_from((#[trigger] candidates@[m]).genome@, start.individuals@),
            decreases n - i,
        {
            let mut genome = copy_genome(&pool[i].genome);
            proof {
                assert(self.fits(pool@[i as int].genome@));
            }
            self.operators.mutate(rng, &mut genome, self.mutation_probability, &self.range);
            candidates.push(Individual { genome: genome });
            proof {
                if self.crossover_probability == 0 && self.mutation_probability == 0 {
                    assert(drawn_from(pool@[i as int].genome@, start.individuals@));
                    assert(candidates@[i as int].genome@ == pool@[i as int].genome@);
                }
            }
            i = i + 1;
        }
        let ghost candidate_genomes = genomes(candidates@);
        proof {
            if self.mutation_probability == 0 {
                assert(candidate_genomes =~= genomes(pool@));
            }
        }
        // Replacement.
        let with_gap = self.has_generation_gap && early;
        let slots: Vec<usize>;
        if with_gap {
            let count = generation_gap_size(current_generation, total_generations, n);
            slots = self.select_random_n_indices(rng, count);
        } else {
            let mut all: Vec<usize> = Vec::new();
            let mut k: usize = 0;
            while k < n
                invariant
                    k <= n,
                    all@.len() == k,
                    forall|m: int| 0 <= m < k ==> #[trigger] all@[m] == m,
                decreases n - k,
            {
                all.push(k);
                k = k + 1;
            }
            slots = all;
            proof {
                assert forall|a: int, b: int| 0 <= a < b < slots@.len() implies slots@[a] != slots@[b] by {
                    assert(slots@[a] == a && slots@[b] == b);
                }
            }
        }
        assert(slots@.len() == if with_gap {
            gap_count(current_generation as int, total_generations as int, n as int)
        } else {
            n as int
        });
        assert(forall|a: int, b: int| 0 <= a < b < slots@.len() ==> slots@[a] != slots@[b]);
        assert(!with_gap ==> forall|m: int| 0 <= m < n ==> #[trigger] slots@[m] == m);
        let crowding = self.crowding_factor > 1 && early;
        let ghost mut applied: Seq<int> = Seq::empty();
        let ghost mut targets: Seq<int> = Seq::empty();
        let mut i: usize = 0;
        while i < slots.len()
            invariant
                self.wf(),
                *self == (Population { individuals: self.individuals, ..evaluated }),
                crowding ==> self.crowding_factor > 1,
                n == self.individuals@.len(),
                candidates@.len() == n,
                candidate_genomes == genomes(candidates@),
                i <= slots@.len(),
                applied.len() == i,
                targets.len() == i,
                forall|j: int| 0 <= j < i ==> #[trigger] applied[j] == slots@[j],
                forall|j: int| 0 <= j < i ==> 0 <= #[trigger] targets[j] < n,
                !crowding ==> forall|j: int| 0 <= j < i ==> #[trigger] targets[j] == slots@[j],
                forall|m: int| 0 <= m < slots@.len() ==> #[trigger] slots@[m] < n,
                forall|x: int| 0 <= x < n ==> #[trigger] start.replaced_slot(self.individuals@, candidate_genomes, applied, targets, x),
                forall|m: int| 0 <= m < n ==> self.fits((#[trigger] candidates@[m]).genome@),
                self.crossover_probability == 0 && self.mutation_probability == 0 ==> forall|m: int|
                    0 <= m < n ==> drawn_from((#[trigger] candidates@[m]).genome@, start.individuals@),
                self.crossover_probability == 0 && self.mutation_probability == 0 ==> forall|m: int|
                    0 <= m < n ==> drawn_from((#[trigger] self.individuals@[m]).genome@, start.individuals@),
            decreases slots@.len() - i,
        {
            let slot = slots[i];
            proof {
                assert(self.fits(candidates@[slot as int].genome@));
            }
            let target = if crowding {
                self.most_similar(rng, &candidates[slot].genome)
            } else {
                slot
            };
            let copy = candidates[slot].duplicate();
            let ghost before = self.individuals@;
            let ghost old_targets = targets;
            let ghost old_applied = applied;
            self.individuals.set(target, copy);
            proof {
                applied = applied.push(slot as int);
                targets = targets.push(target as int);
                assert forall|x: int| 0 <= x < n implies #[trigger] start.replaced_slot(
                    self.individuals@,
                    candidate_genomes,
                    applied,
                    targets,
                    x,
                ) by {
                    assert(start.replaced_slot(before, candidate_genomes, old_applied, old_targets, x));
                    if x == target {
                        assert(targets[i as int] == x);
                        assert(self.individuals@[x].genome@ == candidate_genomes[applied[i as int]]);
                    } else {
                        assert(self.individuals@[x] == before[x]);
                        if exists|j: int| 0 <= j < old_targets.len() && #[trigger] old_targets[j] == x {
                            let j = choose|j: int|
                                0 <= j < old_targets.len() && #[trigger] old_targets[j] == x && before[x].genome@
                                    == candidate_genomes[old_applied[j]];
                            assert(targets[j] == x && applied[j] == old_applied[j]);
                        } else {
                            assert forall|j: int| 0 <= j < targets.len() implies #[trigger] targets[j] != x by {
                                if j < old_targets.len() {
                                    assert(targets[j] == old_targets[j]);
                                }
                            }
                        }
                    }
                }
                assert forall|m: int| 0 <= m < n implies self.fits((#[trigger] self.individuals@[m]).genome@) by {
                    if m == target {
                        assert(self.individuals@[m].genome@ == candidates@[slot as int].genome@);
                    }
                }
                if self.crossover_probability == 0 && self.mutation_probability == 0 {
                    assert(drawn_from(candidates@[slot as int].genome@, start.individuals@));
                }
            }
            i = i + 1;
        }
        proof {
            if start.crossover_probability == 0 && start.mutation_probability == 0 {
                assert(forall|m: int| 0 <= m < n ==> drawn_from((#[trigger] self.individuals@[m]).genome@, start.individuals@));
            }
        }
        let ghost placed = self.individuals@;
        // Elitism.
        if self.has_elitism {
            self.individuals.set(best, elite);
            proof {
                assert forall|m: int| 0 <= m < n implies self.fits((#[trigger] self.individuals@[m]).genome@) by {
                    if m == best {
                        assert(start.fits(start.individuals@[m].genome@));
                    }
                }
                if start.crossover_probability == 0 && start.mutation_probability == 0 {
                    assert(drawn_from(start.individuals@[best as int].genome@, start.individuals@));
                }
            }
        }
        let ghost replaced = *self;
        self.compute_fitnesses();
        proof {
            assert(self.individuals == replaced.individuals);
            start.lemma_diversity_depends_on_genomes(&measured, n as int);
            assert(as_ints(start.fitnesses@).len() == n);
            assert(start.raw_fitnesses().len() == n);
            assert(self.best_fitness_in_generation@.drop_last() =~= start.best_fitness_in_generation@);
            assert(self.best_individual_in_generation@.drop_last() =~= start.best_individual_in_generation@);
            assert(self.average_fitness_in_generation@.drop_last() =~= start.average_fitness_in_generation@);
            assert(self.diversity_in_generation@.drop_last() =~= start.diversity_in_generation@);
            let t = StepTrace {
                adjusted: adjusted,
                winners: winners,
                pool: genomes(pool@),
                candidates: candidate_genomes,
                slots: applied,
                targets: targets,
            };
            assert forall|i: int| 0 <= i < n && !(start.has_elitism && i == best) implies #[trigger] start.replaced_slot(
                self.individuals@,
                t.candidates,
                t.slots,
                t.targets,
                i,
            ) by {
                assert(start.replaced_slot(placed, t.candidates, t.slots, t.targets, i));
                assert(self.individuals@[i] == placed[i]);
            }
            let e = before_final_tenth(current_generation as int, total_generations as int);
            assert(e == early);
            assert(t.adjusted == start.adjusted_fitnesses(e, scaling_multiplier as int));
            assert(forall|m: int|
                0 <= m < n ==> 0 <= #[trigger] t.winners[m] < n && is_tournament_winner(
                    t.adjusted,
                    n as int,
                    tournament_size(n as int),
                    t.winners[m],
                ));
            assert(forall|m: int| 0 <= m < n && m % 2 == 0 ==> #[trigger] start.paired(t.winners, t.pool, m));
            assert(forall|m: int| 0 <= m < n ==> start.fits(#[trigger] t.candidates[m])) by {
                assert forall|m: int| 0 <= m < n implies start.fits(#[trigger] t.candidates[m]) by {
                    assert(evaluated.fits(candidates@[m].genome@));
                }
            }
            assert(start.mutation_probability == 0 ==> t.candidates == t.pool);
            assert(t.slots.len() == if start.has_generation_gap && e {
                gap_count(current_generation as int, total_generations as int, n as int)
            } else {
                n as int
            });
            assert(forall|j: int| 0 <= j < t.slots.len() ==> 0 <= #[trigger] t.slots[j] < n && 0 <= t.targets[j] < n);
            assert(forall|j: int, k: int| 0 <= j < k < t.slots.len() ==> t.slots[j] != t.slots[k]);
            assert(!(start.has_generation_gap && e) ==> forall|j: int| 0 <= j < n ==> #[trigger] t.slots[j] == j);
            assert(!(start.crowding_factor > 1 && e) ==> t.targets == t.slots) by {
                if !(start.crowding_factor > 1 && e) {
                    assert(t.targets =~= t.slots);
                }
            }
            assert(start.traced_step(self, t, current_generation as int, total_generations as int, scaling_multiplier as int));
        }
    }
}

/// Every generation keeps the population's shape: `N` individuals and `N`
/// fitness values, every genome of the configured length, and, in an ordered
/// population whose operators keep permutations, every genome a permutation.
pub proof fn lemma_generation_keeps_shape<T: Gene, P: GeneticOperators<T>>(
    before: Population<T, P>,
    after: Population<T, P>,
    current: int,
    total: int,
    c: int,
)
    requires
        before.wf(),
        before.next_generation(&after, current, total, c),
    ensures
        after.individuals@.len() == before.individuals@.len(),
        after.fitnesses@.len() == before.individuals@.len(),
        forall|i: int| 0 <= i < after.individuals@.len() ==> (#[trigger] after.individuals@[i]).genome@.len() == before.genome_length,
        before.ordered && before.operators.keeps_permutations() ==> forall|i: int|
            0 <= i < after.individuals@.len() ==> is_permutation((#[trigger] after.individuals@[i]).genome@),
{
    assert forall|i: int| 0 <= i < after.individuals@.len() implies (#[trigger] after.individuals@[i]).genome@.len()
        == before.genome_length by {
        assert(after.fits(after.individuals@[i].genome@));
    }
    if before.ordered && before.operators.keeps_permutations() {
        assert forall|i: int| 0 <= i < after.individuals@.len() implies is_permutation(
            (#[trigger] after.individuals@[i]).genome@,
        ) by {
            assert(after.fits(after.individuals@[i].genome@));
        }
    }
}

/// With elitism, the best fitness recorded for a generation is never below
/// the one recorded for the generation before.
pub proof fn lemma_elitism_best_fitness_never_drops<T: Gene, P: GeneticOperators<T>>(
    first: Population<T, P>,
    second: Population<T, P>,
    third: Population<T, P>,
    generations: (int, int, int, int),
    multipliers: (int, int),
)
    requires
        first.wf(),
        first.has_elitism,
        first.next_generation(&second, generations.0, generations.1, multipliers.0),
        second.next_generation(&third, generations.2, generations.3, multipliers.1),
    ensures
        third.best_fitness_in_generation@.last() >= second.best_fitness_in_generation@.last(),
{
    let raw0 = first.raw_fitnesses();
    let raw1 = second.raw_fitnesses();
    let b = first_max_index(raw0);
    lemma_first_max_index(raw0, raw0.len() as int);
    lemma_first_max_index(raw1, raw1.len() as int);
    assert(second.individuals@[b].genome@ == first.individuals@[b].genome@);
    assert(raw1[b] == raw0[b]);
}

/// The sum of the first `k` rows is zero exactly when every distance in them
/// is zero.
proof fn lemma_diversity_upto_zero<T: Gene, P: GeneticOperators<T>>(p: Population<T, P>, k: int)
    requires
        p.wf(),
        0 <= k <= p.individuals@.len(),
    ensures
        p.diversity_upto(k) >= 0,
        p.diversity_upto(k) == 0 <==> forall|i: int, j: int|
            0 <= i < k && i <= j < p.individuals@.len() ==> #[trigger] p.pair_distance(i, j) == 0,
    decreases k,
{
    if k > 0 {
        lemma_diversity_upto_zero(p, k - 1);
        lemma_row_zero(p, k - 1, p.individuals@.len() as int);
        if p.diversity_upto(k) == 0 {
            assert forall|i: int, j: int| 0 <= i < k && i <= j < p.individuals@.len() implies #[trigger] p.pair_distance(
                i,
                j,
            ) == 0 by {
                if i < k - 1 {
                } else {
                }
            }
        }
    }
}

proof fn lemma_row_zero<T: Gene, P: GeneticOperators<T>>(p: Population<T, P>, i: int, m: int)
    requires
        p.wf(),
        0 <= i < p.individuals@.len(),
        i <= m <= p.individuals@.len(),
    ensures
        p.row_distance(i, m) >= 0,
        p.row_distance(i, m) == 0 <==> forall|j: int| i <= j < m ==> #[trigger] p.pair_distance(i, j) == 0,
    decreases m - i,
{
    if m > i {
        lemma_row_zero(p, i, m - 1);
        assert(p.fits(p.individuals@[i].genome@));
        assert(p.fits(p.individuals@[m - 1].genome@));
        p.operators.lemma_distance_laws(p.individuals@[i].genome@, p.individuals@[m - 1].genome@, p.range);
    }
}

/// The diversity metric is zero exactly when every pair of individuals is at
/// distance zero.
pub proof fn lemma_diversity_zero_iff_no_distance<T: Gene, P: GeneticOperators<T>>(p: Population<T, P>)
    requires
        p.wf(),
    ensures
        p.diversity() >= 0,
        p.diversity() == 0 <==> forall|i: int, j: int|
            0 <= i < p.individuals@.len() && 0 <= j < p.individuals@.len() ==> #[trigger] p.pair_distance(i, j) == 0,
{
    let n = p.individuals@.len() as int;
    lemma_diversity_upto_zero(p, n);
    if p.diversity() == 0 {
        assert forall|i: int, j: int| 0 <= i < n && 0 <= j < n implies #[trigger] p.pair_distance(i, j) == 0 by {
            if j < i {
                assert(p.fits(p.individuals@[i].genome@));
                assert(p.fits(p.individuals@[j].genome@));
                p.operators.lemma_distance_laws(p.individuals@[i].genome@, p.individuals@[j].genome@, p.range);
                assert(p.pair_distance(j, i) == 0);
            }
        }
    }
}

/// With a generation gap before 0.9, a step changes at most `gap_count`
/// slots (the elite slot aside): every slot outside some `gap_count` targets
/// keeps its genome. At generation 0 the gap is empty and no genome changes.
pub proof fn lemma_generation_gap_bounds_changes<T: Gene, P: GeneticOperators<T>>(
    before: Population<T, P>,
    after: Population<T, P>,
    current: int,
    total: int,
    c: int,
)
    requires
        before.wf(),
        before.has_generation_gap,
        before_final_tenth(current, total),
        0 <= current,
        0 < total,
        before.next_generation(&after, current, total, c),
    ensures
        exists|targets: Seq<int>|
            {
                &&& targets.len() == gap_count(current, total, before.individuals@.len() as int)
                &&& forall|i: int|
                    0 <= i < before.individuals@.len() && !targets.contains(i) && !(before.has_elitism && i
                        == first_max_index(before.raw_fitnesses())) ==> #[trigger] after.individuals@[i].genome@
                        == before.individuals@[i].genome@
            },
        current == 0 ==> forall|i: int|
            0 <= i < before.individuals@.len() ==> #[trigger] after.individuals@[i].genome@
                == before.individuals@[i].genome@,
{
    let n = before.individuals@.len() as int;
    let t = choose|t: StepTrace<T>| #[trigger] before.traced_step(&after, t, current, total, c);
    let best = first_max_index(before.raw_fitnesses());
    assert forall|i: int|
        0 <= i < n && !t.targets.contains(i) && !(before.has_elitism && i == best) implies #[trigger] after.individuals@[i].genome@
        == before.individuals@[i].genome@ by {
        assert(before.replaced_slot(after.individuals@, t.candidates, t.slots, t.targets, i));
        if exists|j: int| 0 <= j < t.targets.len() && #[trigger] t.targets[j] == i {
            let j = choose|j: int| 0 <= j < t.targets.len() && #[trigger] t.targets[j] == i;
            assert(t.targets.contains(i));
        }
    }
    if current == 0 {
        assert((10 * current + total - 1) / total == 0) by (nonlinear_arith)
            requires current == 0, total > 0;
        assert(gap_count(current, total, n) == 0);
        assert forall|i: int| 0 <= i < n implies #[trigger] after.individuals@[i].genome@
            == before.individuals@[i].genome@ by {
            assert(!t.targets.contains(i));
            if before.has_elitism && i == best {
            } else {
            }
        }
    }
}

} // verus!
