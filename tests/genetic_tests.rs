use genetic::crossover::{
    check_rearrangement, one_point_crossover, OperatorContractViolation, one_point_crossover_3, one_point_crossover_at, partially_matched_crossover,
    partially_matched_crossover_at, uniform_average_crossover, uniform_crossover, uniform_crossover_3,
};
use genetic::fitness::{
    deceptive_4, deceptive_f3, deceptive_f3s, max_alternating_bits, max_alternating_even_odd, n_queens,
    pattern_recognition,
};
use genetic::fixed::FIXED_ONE;
use genetic::helpers::{binary_vector_to_decimal, euclidean_distance_int, hamming_distance, Range, SimpleStepRange};
use genetic::maze::{path_fitness, walk, Point};
use genetic::mutation::{bit_flip, random_int, swap_position, swap_positions};
use genetic::population::{
    average_fitness, fittest_index, generation_gap_size, scale_one, ConfigurationError, Individual, Population,
};
use genetic::problems::{BitLandscape, BitStringOperators, IntegerLandscape, IntegerOperators, PermutationOperators};
use genetic::random::{coin, random_index, PROBABILITY_ONE};
use genetic::selection::{roulette_pick, tournament_pick};
use rand::rngs::StdRng;
use rand::SeedableRng;

fn rng(seed: u64) -> StdRng {
    StdRng::seed_from_u64(seed)
}

fn is_permutation(genome: &Vec<i32>) -> bool {
    let mut seen = vec![false; genome.len()];
    for &g in genome {
        if g < 0 || g as usize >= genome.len() || seen[g as usize] {
            return false;
        }
        seen[g as usize] = true;
    }
    true
}

fn bit_population(seed: u64, size: usize, length: usize, p_c: u32, p_m: u32) -> Population<u8, BitStringOperators> {
    let mut r = rng(seed);
    match Population::new(
        &mut r,
        size,
        length,
        p_c,
        p_m,
        Range::new(0u8, 1u8),
        true,
        true,
        true,
        true,
        3,
        BitStringOperators { landscape: BitLandscape::Deceptive4 },
    ) {
        Ok(p) => p,
        Err(_) => panic!("valid configuration refused"),
    }
}

#[test]
fn range_new_keeps_bounds() {
    let range = Range::new(-3, 7);
    assert_eq!(range.start, -3);
    assert_eq!(range.end, 7);
}

#[test]
fn binary_vector_decodes_most_significant_first() {
    assert_eq!(binary_vector_to_decimal(&vec![1, 0, 1]), 5);
    assert_eq!(binary_vector_to_decimal(&vec![0, 0, 0, 1]), 1);
    assert_eq!(binary_vector_to_decimal(&vec![1, 1, 1, 1, 1, 1, 1, 1]), 255);
    assert_eq!(binary_vector_to_decimal(&vec![]), 0);
    assert_eq!(binary_vector_to_decimal(&vec![1; 31]), i32::MAX);
}

#[test]
fn hamming_distance_is_the_share_of_differences() {
    let range = Range::new(0u8, 1u8);
    assert_eq!(hamming_distance(&vec![0, 0, 1, 1], &vec![0, 1, 1, 0], &range), 500_000);
    assert_eq!(hamming_distance(&vec![0, 0, 0], &vec![1, 0, 0], &range), 333_334);
    assert_eq!(hamming_distance(&vec![1, 1], &vec![0, 0], &range), FIXED_ONE);
}

#[test]
fn distances_are_zero_on_equal_genomes_and_symmetric() {
    let bits = Range::new(0u8, 1u8);
    let a = vec![0u8, 1, 1, 0, 1];
    let b = vec![1u8, 1, 0, 0, 0];
    assert_eq!(hamming_distance(&a, &a, &bits), 0);
    assert_eq!(hamming_distance(&a, &b, &bits), hamming_distance(&b, &a, &bits));
    let ints = Range::new(0, 9);
    let c = vec![3, 1, 4, 1, 5];
    let d = vec![9, 2, 6, 5, 3];
    assert_eq!(euclidean_distance_int(&c, &c, &ints), 0);
    assert_eq!(euclidean_distance_int(&c, &d, &ints), euclidean_distance_int(&d, &c, &ints));
}

#[test]
fn euclidean_distance_is_normalised_by_the_range() {
    let range = Range::new(0, 5);
    // squared gaps 9 + 16 = 25 over the largest 2 * 25: sqrt(1/2)
    assert_eq!(euclidean_distance_int(&vec![0, 0], &vec![3, 4], &range), 707_106);
    assert_eq!(euclidean_distance_int(&vec![0, 0], &vec![5, 5], &range), FIXED_ONE);
    // a degenerate range: equal genes are at distance zero, others farthest
    let point = Range::new(2, 2);
    assert_eq!(euclidean_distance_int(&vec![2, 2], &vec![2, 2], &point), 0);
    assert_eq!(euclidean_distance_int(&vec![2, 2], &vec![2, 3], &point), FIXED_ONE);
}

#[test]
fn simple_step_range_counts_in_steps() {
    let mut steps = SimpleStepRange(0, 7, 3);
    assert_eq!(steps.next(), Some(0));
    assert_eq!(steps.next(), Some(3));
    assert_eq!(steps.next(), Some(6));
    assert_eq!(steps.next(), None);
    assert_eq!(steps.next(), None);
}

#[test]
fn one_point_crossover_at_forced_cut() {
    let (boy, girl) = one_point_crossover_at(&vec![0, 0, 0, 0], &vec![1, 1, 1, 1], 1);
    assert_eq!(boy, vec![1, 1, 0, 0]);
    assert_eq!(girl, vec![0, 0, 1, 1]);
}

#[test]
fn one_point_crossover_cuts_inside_the_genome() {
    let mut r = rng(1);
    let dad = vec![0u8; 6];
    let mom = vec![1u8; 6];
    for _ in 0..50 {
        let (boy, girl) = one_point_crossover(&mut r, &dad, &mom);
        let ones = boy.iter().filter(|&&g| g == 1).count();
        assert!(ones >= 2 && ones <= 5);
        assert!(boy[..ones].iter().all(|&g| g == 1) && boy[ones..].iter().all(|&g| g == 0));
        for i in 0..6 {
            assert_eq!(girl[i], 1 - boy[i]);
        }
    }
    let (boy, girl) = one_point_crossover(&mut r, &vec![0u8, 0], &vec![1u8, 1]);
    assert_eq!(boy, vec![1, 0]);
    assert_eq!(girl, vec![0, 1]);
}

#[test]
fn one_point_crossover_3_cuts_at_multiples_of_three() {
    let mut r = rng(2);
    let dad = vec![0u8; 12];
    let mom = vec![1u8; 12];
    for _ in 0..50 {
        let (boy, _) = one_point_crossover_3(&mut r, &dad, &mom);
        let ones = boy.iter().filter(|&&g| g == 1).count();
        assert!(ones == 4 || ones == 7);
    }
}

#[test]
fn partially_matched_crossover_at_known_segment() {
    let dad = vec![0, 1, 2, 3, 4, 5, 6, 7];
    let mom = vec![3, 7, 5, 1, 6, 0, 2, 4];
    let (boy, girl) = partially_matched_crossover_at(&dad, &mom, 2, 5);
    assert_eq!(boy, vec![0, 3, 5, 1, 6, 2, 4, 7]);
    assert_eq!(girl, vec![1, 7, 2, 3, 4, 0, 5, 6]);
}

#[test]
fn partially_matched_crossover_keeps_permutations() {
    let mut r = rng(3);
    for _ in 0..100 {
        let dad = Individual::new_ordered(&mut r, 8).genome;
        let mom = Individual::new_ordered(&mut r, 8).genome;
        match partially_matched_crossover(&mut r, &dad, &mom) {
            Ok((boy, girl)) => {
                assert!(is_permutation(&boy));
                assert!(is_permutation(&girl));
            }
            Err(_) => panic!("permutations refused"),
        }
    }
}

#[test]
fn partially_matched_crossover_takes_any_set_of_distinct_genes() {
    let mut r = rng(39);
    let dad = vec![10, 20, 30, 40, 50, 60];
    let mom = vec![60, 50, 40, 30, 20, 10];
    for _ in 0..50 {
        match partially_matched_crossover(&mut r, &dad, &mom) {
            Ok((boy, girl)) => {
                let mut b = boy.clone();
                b.sort();
                let mut g = girl.clone();
                g.sort();
                assert_eq!(b, dad);
                assert_eq!(g, dad);
            }
            Err(_) => panic!("rearrangements refused"),
        }
    }
    match partially_matched_crossover(&mut r, &vec![1, 2, 3, 4], &vec![4, 3, 2, 1]) {
        Ok((boy, girl)) => {
            // the only segment is [1, 2)
            assert_eq!(boy, vec![1, 3, 2, 4]);
            assert_eq!(girl, vec![4, 2, 3, 1]);
        }
        Err(_) => panic!("rearrangements refused"),
    }
}

#[test]
fn swap_positions_applies_the_drawn_swaps() {
    let mut genome = vec![0, 1, 2, 3];
    swap_positions(&mut genome, &vec![true, false, true, false], &vec![3, 1, 0, 2]);
    // swap 0 and 3: [3, 1, 2, 0]; then swap 2 and 0: [2, 1, 3, 0]
    assert_eq!(genome, vec![2, 1, 3, 0]);
    let mut r = rng(40);
    let mut all = vec![0, 1, 2, 3, 4];
    swap_position(&mut r, &mut all, 0, &Range::new(0, 4));
    assert_eq!(all, vec![0, 1, 2, 3, 4]);
}

#[test]
fn walk_accepts_a_goal_outside_the_maze() {
    assert_eq!(walk(&vec![1, 1, 1], Point { x: 1, y: 10 }, Point { x: 1000, y: 1000 }), (3, 0, 0, 3, 1988));
}

#[test]
fn partially_matched_crossover_refuses_non_permutations() {
    let mut r = rng(34);
    let dad = vec![0, 1, 2, 3, 4, 5];
    let mom = vec![0, 0, 1, 2, 3, 4];
    assert!(matches!(
        partially_matched_crossover(&mut r, &dad, &mom),
        Err(OperatorContractViolation::NotRearrangements)
    ));
    assert!(matches!(
        partially_matched_crossover(&mut r, &vec![0, 1, 2, 9], &vec![3, 2, 1, 0]),
        Err(OperatorContractViolation::NotRearrangements)
    ));
    assert!(check_rearrangement(&vec![1, 2, 3, 4], &vec![4, 3, 2, 1]));
    assert!(!check_rearrangement(&vec![1, 2, 3, 4], &vec![4, 3, 2, 2]));
    assert!(!check_rearrangement(&vec![1, 1, 3, 4], &vec![4, 3, 1, 1]));
}

#[test]
fn population_crossover_crosses_the_lower_slot_first() {
    let mut p = bit_population(35, 4, 4, 0, 0);
    p.individuals[1].genome = vec![0, 0, 0, 0];
    p.individuals[3].genome = vec![1, 1, 1, 1];
    let mut r = rng(36);
    let individuals: Vec<Individual<u8>> =
        p.individuals.iter().map(|i| Individual { genome: i.genome.clone() }).collect();
    let (boy, girl) = p.crossover(&mut r, &individuals, 3, 1);
    // the boy takes the mother's (slot 3) genes up to the cut, the father's (slot 1) after it
    assert_eq!(boy[0], 1);
    assert_eq!(boy[3], 0);
    assert_eq!(girl[0], 0);
    assert_eq!(girl[3], 1);
}

#[test]
fn generation_gap_keeps_everything_at_generation_zero() {
    let mut p = bit_population(37, 10, 12, 1_000_000, 500_000);
    let mut r = rng(38);
    let before: Vec<Vec<u8>> = p.individuals.iter().map(|i| i.genome.clone()).collect();
    p.iterate_generation(&mut r, 0, 20, 1_500_000);
    let after: Vec<Vec<u8>> = p.individuals.iter().map(|i| i.genome.clone()).collect();
    assert_eq!(before, after);
}

#[test]
fn uniform_crossovers_keep_or_exchange_genes() {
    let mut r = rng(4);
    let dad = vec![0, 1, 2, 3, 4, 5];
    let mom = vec![10, 11, 12, 13, 14, 15];
    let (boy, girl) = uniform_crossover(&mut r, &dad, &mom);
    for i in 0..6 {
        assert!((boy[i] == dad[i] && girl[i] == mom[i]) || (boy[i] == mom[i] && girl[i] == dad[i]));
    }
    let (boy, girl) = uniform_crossover_3(&mut r, &dad, &mom);
    for block in 0..2 {
        let swapped = boy[3 * block] == mom[3 * block];
        for i in 3 * block..3 * block + 3 {
            if swapped {
                assert!(boy[i] == mom[i] && girl[i] == dad[i]);
            } else {
                assert!(boy[i] == dad[i] && girl[i] == mom[i]);
            }
        }
    }
}

#[test]
fn uniform_average_crossover_rounds_toward_zero() {
    let mut r = rng(5);
    let dad = vec![2, 4];
    let mom = vec![4, -5];
    let (boy, girl) = uniform_average_crossover(&mut r, &dad, &mom);
    assert!((boy[0] == 3 && girl[0] == 4) || (boy[0] == 2 && girl[0] == 3));
    assert!((boy[1] == 0 && girl[1] == -5) || (boy[1] == 4 && girl[1] == 0));
}

#[test]
fn bit_flip_extremes() {
    let mut r = rng(6);
    let range = Range::new(0u8, 1u8);
    let mut genome = vec![0u8, 1, 1, 0];
    bit_flip(&mut r, &mut genome, 0, &range);
    assert_eq!(genome, vec![0, 1, 1, 0]);
    bit_flip(&mut r, &mut genome, PROBABILITY_ONE, &range);
    assert_eq!(genome, vec![1, 0, 0, 1]);
}

#[test]
fn random_int_stays_in_range() {
    let mut r = rng(7);
    let range = Range::new(-2, 2);
    let mut genome = vec![100; 20];
    random_int(&mut r, &mut genome, PROBABILITY_ONE, &range);
    assert!(genome.iter().all(|&g| -2 <= g && g <= 2));
    let mut kept = vec![100; 5];
    random_int(&mut r, &mut kept, 0, &range);
    assert_eq!(kept, vec![100; 5]);
}

#[test]
fn swap_position_keeps_permutations() {
    let mut r = rng(8);
    let range = Range::new(0, 9);
    for _ in 0..20 {
        let mut genome = Individual::new_ordered(&mut r, 10).genome;
        swap_position(&mut r, &mut genome, PROBABILITY_ONE / 2, &range);
        assert!(is_permutation(&genome));
    }
}

#[test]
fn alternation_landscapes() {
    let bits = Range::new(0u8, 1u8);
    assert_eq!(max_alternating_bits(&vec![0, 1, 0, 1], &bits), 3 * FIXED_ONE);
    assert_eq!(max_alternating_bits(&vec![1, 1], &bits), 0);
    let ints = Range::new(0, 9);
    assert_eq!(max_alternating_even_odd(&vec![0, 1, 2, 3], &ints), 3 * FIXED_ONE);
    assert_eq!(max_alternating_even_odd(&vec![2, 4], &ints), FIXED_ONE);
    assert_eq!(max_alternating_even_odd(&vec![-3, 5, -2], &ints), FIXED_ONE);
}

#[test]
fn n_queens_counts_diagonal_attacks() {
    let range = Range::new(0, 3);
    assert_eq!(n_queens(&vec![1, 3, 0, 2], &range), FIXED_ONE);
    assert_eq!(n_queens(&vec![0, 1], &range), FIXED_ONE / 2);
    assert_eq!(n_queens(&vec![0, 1, 2], &range), 333_333);
}

#[test]
fn deceptive_landscapes() {
    let bits = Range::new(0u8, 1u8);
    assert_eq!(deceptive_f3(&vec![0, 0, 0], &bits), 28 * FIXED_ONE);
    assert_eq!(deceptive_f3(&vec![0, 0, 1, 1, 0, 0, 1], &bits), (26 + 0) * FIXED_ONE);
    assert_eq!(deceptive_f3(&vec![1, 1, 1], &bits), 0);
    assert_eq!(deceptive_4(&vec![0, 0, 0, 0], &bits), 5 * FIXED_ONE);
    assert_eq!(deceptive_4(&vec![1, 1, 1, 1], &bits), 4 * FIXED_ONE);
    assert_eq!(deceptive_4(&vec![1, 0, 0, 0, 1, 1, 0, 0, 1], &bits), 3 * FIXED_ONE);
    assert_eq!(deceptive_f3s(&vec![0u8; 30], &bits), 4 * 28 * FIXED_ONE);
}

#[test]
fn pattern_recognition_landscape() {
    let bits = Range::new(0u8, 1u8);
    let pattern = vec![
        0, 1, 0, 0, 0, 0, 0, 1, 0, 1, 1, 0, 0, 1, 0, 1, 0, 0, 0, 0, 0, 0, 1, 0, 0, 1, 1, 1, 0, 0, 0, 0, 0, 0, 1, 0,
    ];
    assert_eq!(pattern_recognition(&pattern, &bits), 36 * FIXED_ONE);
    assert_eq!(pattern_recognition(&vec![1u8; 36], &bits), 36 * FIXED_ONE - 694_445);
    assert_eq!(pattern_recognition(&vec![1u8; 5], &bits), 35 * FIXED_ONE);
}

#[test]
fn roulette_pick_finds_the_slot() {
    assert_eq!(roulette_pick(&vec![0, 0, 0, 1], 0), 3);
    assert_eq!(roulette_pick(&vec![2, 3, 5], 0), 0);
    assert_eq!(roulette_pick(&vec![2, 3, 5], 2), 1);
    assert_eq!(roulette_pick(&vec![2, 3, 5], 9), 2);
}

#[test]
fn roulette_always_picks_the_only_fit_individual() {
    let mut p = bit_population(9, 4, 8, 0, 0);
    p.fitnesses = vec![0, 0, 0, 1];
    let mut r = rng(10);
    for _ in 0..200 {
        assert_eq!(p.roulette(&mut r), 3);
    }
}

#[test]
fn roulette_falls_back_to_uniform_on_degenerate_fitness() {
    let mut p = bit_population(11, 4, 8, 0, 0);
    p.fitnesses = vec![0, 0, 0, 0];
    let mut r = rng(12);
    let mut seen = [false; 4];
    for _ in 0..200 {
        seen[p.roulette(&mut r)] = true;
    }
    assert!(seen.iter().all(|&s| s));
}

#[test]
fn tournament_pick_prefers_latest_of_the_fittest() {
    let fitnesses = vec![5, 9, 9, 1];
    assert_eq!(tournament_pick(&fitnesses, &vec![0, 1, 2]), 2);
    assert_eq!(tournament_pick(&fitnesses, &vec![2, 1, 0]), 1);
    assert_eq!(tournament_pick(&fitnesses, &vec![3]), 3);
    assert_eq!(tournament_pick(&fitnesses, &vec![3, 0]), 0);
}

#[test]
fn tournament_of_one_is_uniform() {
    let p = bit_population(13, 4, 8, 0, 0);
    let mut r = rng(14);
    let mut counts = [0usize; 4];
    for _ in 0..4000 {
        counts[p.tournament(&mut r, 1)] += 1;
    }
    assert!(counts.iter().all(|&c| c > 800 && c < 1200));
}

#[test]
fn tournament_of_everyone_picks_the_fittest() {
    let mut p = bit_population(15, 4, 8, 0, 0);
    p.fitnesses = vec![3, 7, 1, 2];
    let mut r = rng(16);
    for _ in 0..50 {
        assert_eq!(p.tournament(&mut r, 4), 1);
    }
}

#[test]
fn configuration_errors() {
    let mut r = rng(17);
    let ops = || BitStringOperators { landscape: BitLandscape::MaxAlternatingBits };
    let range = Range::new(0u8, 1u8);
    assert!(matches!(
        Population::new(&mut r, 0, 10, 0, 0, range, false, false, false, false, 1, ops()),
        Err(ConfigurationError::EmptyPopulation)
    ));
    assert!(matches!(
        Population::new(&mut r, 4, 1, 0, 0, range, false, false, false, false, 1, ops()),
        Err(ConfigurationError::GenomeTooShort)
    ));
    assert!(matches!(
        Population::new(&mut r, 4, 10, 0, 0, range, false, false, false, false, 4, ops()),
        Err(ConfigurationError::CrowdingFactorTooLarge)
    ));
    assert!(matches!(
        Population::new(&mut r, 4, 10, 0, 0, Range::new(1u8, 0u8), false, false, false, false, 1, ops()),
        Err(ConfigurationError::EmptyRange)
    ));
    assert!(matches!(
        Population::new(&mut r, 2_000_000, 10, 0, 0, range, false, false, false, false, 1, ops()),
        Err(ConfigurationError::PopulationTooLarge)
    ));
    assert!(matches!(
        Population::new(&mut r, 4, 100_000, 0, 0, range, false, false, false, false, 1, ops()),
        Err(ConfigurationError::GenomeTooLong)
    ));
}

#[test]
fn new_population_is_evaluated_with_genes_in_range() {
    let p = bit_population(18, 6, 12, 0, 0);
    assert_eq!(p.individuals.len(), 6);
    assert_eq!(p.fitnesses.len(), 6);
    for (ind, &f) in p.individuals.iter().zip(p.fitnesses.iter()) {
        assert_eq!(ind.genome.len(), 12);
        assert!(ind.genome.iter().all(|&g| g <= 1));
        assert_eq!(f, deceptive_4(&ind.genome, &Range::new(0u8, 1u8)));
    }
    assert!(p.best_fitness_in_generation.is_empty());
}

#[test]
fn selection_only_generation_reuses_genomes() {
    let mut r = rng(19);
    let mut p = match Population::new(
        &mut r,
        4,
        10,
        0,
        0,
        Range::new(0u8, 1u8),
        false,
        false,
        false,
        false,
        1,
        BitStringOperators { landscape: BitLandscape::MaxAlternatingBits },
    ) {
        Ok(p) => p,
        Err(_) => panic!("valid configuration refused"),
    };
    let before: Vec<Vec<u8>> = p.individuals.iter().map(|i| i.genome.clone()).collect();
    p.iterate_generation(&mut r, 0, 1, 1_500_000);
    for ind in &p.individuals {
        assert!(before.contains(&ind.genome));
    }
}

#[test]
fn generations_keep_sizes_and_grow_history() {
    let mut p = bit_population(20, 10, 12, 900_000, 50_000);
    let mut r = rng(21);
    for g in 0..20 {
        p.iterate_generation(&mut r, g, 20, 1_200_000 + 40_000 * g as i64);
        assert_eq!(p.individuals.len(), 10);
        assert_eq!(p.fitnesses.len(), 10);
        assert!(p.individuals.iter().all(|i| i.genome.len() == 12));
        assert_eq!(p.best_fitness_in_generation.len(), g + 1);
        assert_eq!(p.best_individual_in_generation.len(), g + 1);
        assert_eq!(p.average_fitness_in_generation.len(), g + 1);
        assert_eq!(p.diversity_in_generation.len(), g + 1);
        for (ind, &f) in p.individuals.iter().zip(p.fitnesses.iter()) {
            assert_eq!(f, deceptive_4(&ind.genome, &Range::new(0u8, 1u8)));
        }
    }
}

#[test]
fn ordered_population_stays_permutations() {
    let mut r = rng(22);
    let mut p = match Population::new_ordered(
        &mut r,
        8,
        8,
        900_000,
        100_000,
        Range::new(0, 7),
        true,
        true,
        true,
        true,
        3,
        PermutationOperators,
    ) {
        Ok(p) => p,
        Err(_) => panic!("valid configuration refused"),
    };
    for g in 0..30 {
        p.iterate_generation(&mut r, g, 30, 1_500_000);
        assert!(p.individuals.iter().all(|i| is_permutation(&i.genome)));
    }
}

#[test]
fn elitism_never_loses_the_best_fitness() {
    let mut p = bit_population(23, 12, 16, 950_000, 100_000);
    let mut r = rng(24);
    for g in 0..40 {
        p.iterate_generation(&mut r, g, 40, 2_000_000);
    }
    for w in p.best_fitness_in_generation.windows(2) {
        assert!(w[1] >= w[0]);
    }
}

#[test]
fn recorded_statistics_match_the_generation() {
    let mut p = bit_population(25, 5, 8, 0, 0);
    let mut r = rng(26);
    let raw: Vec<i64> = p.individuals.iter().map(|i| deceptive_4(&i.genome, &Range::new(0u8, 1u8))).collect();
    let best = fittest_index(&raw);
    let diversity = p.calculate_diversity();
    p.iterate_generation(&mut r, 0, 10, 1_500_000);
    assert_eq!(p.best_fitness_in_generation[0], raw[best]);
    assert_eq!(p.average_fitness_in_generation[0], average_fitness(&raw));
    assert_eq!(p.diversity_in_generation[0], diversity);
}

#[test]
fn diversity_is_zero_only_for_identical_genomes() {
    let mut p = bit_population(27, 4, 6, 0, 0);
    for ind in p.individuals.iter_mut() {
        ind.genome = vec![0, 1, 0, 1, 0, 1];
    }
    assert_eq!(p.calculate_diversity(), 0);
    p.individuals[2].genome = vec![1, 1, 0, 1, 0, 1];
    // three pairs differ in one gene of six: ceil(1e6 / 6) each
    assert_eq!(p.calculate_diversity(), 3 * 166_667);
}

#[test]
fn fitness_sharing_divides_by_the_niche_count() {
    let mut p = bit_population(28, 4, 6, 0, 0);
    for ind in p.individuals.iter_mut() {
        ind.genome = vec![1, 1, 1, 1, 0, 0];
    }
    p.fitnesses = vec![4 * FIXED_ONE, 8 * FIXED_ONE, -4 * FIXED_ONE, 3];
    p.apply_fitness_sharing();
    assert_eq!(p.fitnesses, vec![FIXED_ONE, 2 * FIXED_ONE, -FIXED_ONE, 0]);
}

#[test]
fn linear_scaling_maps_average_and_maximum() {
    assert_eq!(scale_one(2, 0, 4, 2, 2 * FIXED_ONE), 2);
    assert_eq!(scale_one(4, 0, 4, 2, 2 * FIXED_ONE), 4);
    assert_eq!(scale_one(0, 0, 4, 2, 2 * FIXED_ONE), 0);
    assert_eq!(scale_one(7, 7, 7, 7, 2 * FIXED_ONE), 7);
    let mut p = bit_population(29, 4, 6, 0, 0);
    p.fitnesses = vec![0, 2 * FIXED_ONE, 2 * FIXED_ONE, 4 * FIXED_ONE];
    p.apply_linear_scaling(3 * FIXED_ONE / 2);
    assert_eq!(p.fitnesses, vec![FIXED_ONE, 2 * FIXED_ONE, 2 * FIXED_ONE, 3 * FIXED_ONE]);
}

#[test]
fn generation_gap_sizes() {
    assert_eq!(generation_gap_size(0, 10, 50), 0);
    assert_eq!(generation_gap_size(1, 10, 50), 5);
    assert_eq!(generation_gap_size(5, 10, 7), 4);
    assert_eq!(generation_gap_size(1, 3, 10), 4);
}

#[test]
fn fitness_statistics() {
    assert_eq!(average_fitness(&vec![1, 2]), 1);
    assert_eq!(average_fitness(&vec![-1, -2]), -2);
    assert_eq!(fittest_index(&vec![1, 3, 3]), 1);
}

#[test]
fn random_draws_respect_their_bounds() {
    let mut r = rng(30);
    for _ in 0..100 {
        assert!(random_index(&mut r, 3) < 3);
        assert!(!coin(&mut r, 0));
        assert!(coin(&mut r, PROBABILITY_ONE));
    }
    let p = bit_population(31, 6, 4, 0, 0);
    let picked = p.select_random_n_indices(&mut r, 6);
    let mut sorted = picked.clone();
    sorted.sort();
    assert_eq!(sorted, vec![0, 1, 2, 3, 4, 5]);
}

#[test]
fn integer_population_runs() {
    let mut r = rng(32);
    let mut p = match Population::new(
        &mut r,
        6,
        8,
        800_000,
        100_000,
        Range::new(0, 7),
        true,
        false,
        false,
        false,
        1,
        IntegerOperators { landscape: IntegerLandscape::NQueens },
    ) {
        Ok(p) => p,
        Err(_) => panic!("valid configuration refused"),
    };
    for g in 0..10 {
        p.iterate_generation(&mut r, g, 10, 1_500_000);
        assert!(p.individuals.iter().all(|i| i.genome.iter().all(|&v| (0..=7).contains(&v))));
    }
}

#[test]
fn walk_reports_its_counters() {
    let start = Point { x: 1, y: 10 };
    let goal = Point { x: 21, y: 1 };
    assert_eq!(walk(&vec![1, 1, 1], start, goal), (3, 0, 0, 3, 32));
    assert_eq!(walk(&vec![0, 1, 1, 1], start, goal), (4, 0, 4, 3, 28));
    assert_eq!(walk(&vec![2, 2, 2, 2], start, goal), (4, 0, 4, 0, 0));
    assert_eq!(walk(&vec![1; 10], start, goal), (10, 0, 10, 6, 35));
}

#[test]
fn walk_stops_at_the_goal() {
    assert_eq!(walk(&vec![0, 1, 1], Point { x: 20, y: 1 }, Point { x: 21, y: 1 }), (1, 0, 0, 1, 0));
    assert_eq!(walk(&vec![1, 1], Point { x: 21, y: 3 }, Point { x: 21, y: 1 }), (2, 0, 2, 1, 3));
}

#[test]
fn path_fitness_values() {
    let range = Range::new(0, 2);
    assert_eq!(path_fitness(&vec![1, 1, 1], &range), 133_333);
    assert_eq!(path_fitness(&vec![0, 1, 1, 1], &range), 750_000);
    assert_eq!(path_fitness(&vec![2, 2, 2, 2], &range), 0);
    assert_eq!(path_fitness(&vec![1, 0, 1, 1, 0, 0, 2], &range), 142_857);
    assert_eq!(path_fitness(&vec![], &range), 0);
}

#[test]
fn crowding_and_gap_replacement_reuse_genomes_without_variation() {
    let mut r = rng(33);
    let mut p = match Population::new(
        &mut r,
        8,
        10,
        0,
        0,
        Range::new(0u8, 1u8),
        true,
        true,
        true,
        true,
        3,
        BitStringOperators { landscape: BitLandscape::DeceptiveF3 },
    ) {
        Ok(p) => p,
        Err(_) => panic!("valid configuration refused"),
    };
    for g in 0..5 {
        let before: Vec<Vec<u8>> = p.individuals.iter().map(|i| i.genome.clone()).collect();
        p.iterate_generation(&mut r, g, 10, 1_500_000);
        for ind in &p.individuals {
            assert!(before.contains(&ind.genome));
        }
    }
}
