//! Fitness landscapes. Each returns a fixed-point fitness (higher is better)
//! for genomes of at most `MAX_GENOME_LENGTH` genes.

use vstd::prelude::*;
use crate::fixed::{FIXED_ONE, MAX_FITNESS, MAX_GENOME_LENGTH};
use crate::helpers::{hamming_distance, hamming_value, Range};

verus! {

/// The number of positions `1 <= k < n` where a gene's being zero differs
/// from its predecessor's.
pub open spec fn bit_changes(genome: Seq<u8>, n: int) -> int
    decreases n,
{
    if n <= 1 {
        0
    } else {
        bit_changes(genome, n - 1) + (if (genome[n - 1] == 0) != (genome[n - 2] == 0) { 1int } else { 0int })
    }
}

/// The number of alternations between zero and non-zero genes.
pub fn max_alternating_bits(genome: &Vec<u8>, range: &Range<u8>) -> (r: i64)
    requires
        genome@.len() <= MAX_GENOME_LENGTH,
    ensures
        r == bit_changes(genome@, genome@.len() as int) * FIXED_ONE,
        0 <= r <= MAX_FITNESS,
{
    let n = genome.len();
    if n == 0 {
        return 0;
    }
    let mut was_zero = genome[0] == 0;
    let mut changes: i64 = 0;
    let mut i: usize = 1;
    while i < n
        invariant
            n == genome@.len() <= MAX_GENOME_LENGTH,
            1 <= i <= n,
            was_zero == (genome@[i - 1] == 0),
            changes == bit_changes(genome@, i as int),
            0 <= changes < i,
        decreases n - i,
    {
        let is_zero = genome[i] == 0;
        if was_zero != is_zero {
            changes = changes + 1;
        }
        was_zero = is_zero;
        i = i + 1;
    }
    changes * FIXED_ONE
}

/// A gene's parity.
pub open spec fn is_even(gene: i32) -> bool {
    gene % 2 == 0
}

/// The number of positions `k < n` whose parity differs from the previous
/// gene's; the first gene is compared with the flag "the first gene is zero".
pub open spec fn parity_changes(genome: Seq<i32>, n: int) -> int
    decreases n,
{
    if n <= 0 {
        0
    } else {
        let previous = if n == 1 { genome[0] == 0 } else { is_even(genome[n - 2]) };
        parity_changes(genome, n - 1) + (if previous != is_even(genome[n - 1]) { 1int } else { 0int })
    }
}

fn even(gene: i32) -> (r: bool)
    ensures
        r == is_even(gene),
{
    let wide = gene as i64;
    let magnitude: i64 = if wide >= 0 { wide } else { -wide };
    proof {
        assert((magnitude % 2 == 0) == (gene % 2 == 0)) by (nonlinear_arith)
            requires magnitude == gene || magnitude == -gene;
    }
    magnitude % 2 == 0
}

/// The number of alternations between even and odd genes.
pub fn max_alternating_even_odd(genome: &Vec<i32>, range: &Range<i32>) -> (r: i64)
    requires
        genome@.len() <= MAX_GENOME_LENGTH,
    ensures
        r == parity_changes(genome@, genome@.len() as int) * FIXED_ONE,
        0 <= r <= MAX_FITNESS,
{
    let n = genome.len();
    if n == 0 {
        return 0;
    }
    let mut was_even = genome[0] == 0;
    let mut changes: i64 = 0;
    let mut i: usize = 0;
    while i < n
        invariant
            n == genome@.len() <= MAX_GENOME_LENGTH,
            0 <= i <= n,
            i == 0 ==> was_even == (genome@[0] == 0),
            i > 0 ==> was_even == is_even(genome@[i - 1]),
            changes == parity_changes(genome@, i as int),
            0 <= changes <= i,
        decreases n - i,
    {
        let now_even = even(genome[i]);
        if was_even != now_even {
            changes = changes + 1;
        }
        was_even = now_even;
        i = i + 1;
    }
    changes * FIXED_ONE
}

/// The target of the pattern-recognition landscape: a 6 x 6 bit image.
pub open spec fn target_pattern() -> Seq<u8> {
    seq![
        0, 1, 0, 0, 0, 0,
        0, 1, 0, 1, 1, 0,
        0, 1, 0, 1, 0, 0,
        0, 0, 0, 0, 1, 0,
        0, 1, 1, 1, 0, 0,
        0, 0, 0, 0, 1, 0,
    ]
}

fn target_pattern_vec() -> (r: Vec<u8>)
    ensures
        r@ == target_pattern(),
{
    let r: Vec<u8> = vec![
        0, 1, 0, 0, 0, 0,
        0, 1, 0, 1, 1, 0,
        0, 1, 0, 1, 0, 0,
        0, 0, 0, 0, 1, 0,
        0, 1, 1, 1, 0, 0,
        0, 0, 0, 0, 1, 0,
    ];
    proof {
        assert(r@ =~= target_pattern());
    }
    r
}

/// 36 minus the normalised Hamming distance to the target pattern; a genome
/// that is not 36 genes long counts as farthest from it.
pub open spec fn pattern_fitness(genome: Seq<u8>) -> int {
    if genome.len() == 36 {
        36 * FIXED_ONE - hamming_value(target_pattern(), genome)
    } else {
        35 * FIXED_ONE
    }
}

/// Closeness to the target pattern (see `pattern_fitness`).
pub fn pattern_recognition(genome: &Vec<u8>, range: &Range<u8>) -> (r: i64)
    ensures
        r == pattern_fitness(genome@),
        0 <= r <= MAX_FITNESS,
{
    let pattern = target_pattern_vec();
    if genome.len() != 36 {
        return 35 * FIXED_ONE;
    }
    let distance = hamming_distance(&pattern, genome, range);
    36 * FIXED_ONE - distance
}

/// Queen `i` attacks a later queen along a diagonal.
pub open spec fn attacks_later(genome: Seq<i32>, i: int) -> bool {
    exists|j: int| i < j < genome.len() && #[trigger] abs_gap(genome[i], genome[j]) == j - i
}

/// `|a - b|`.
pub open spec fn abs_gap(a: i32, b: i32) -> int {
    if a >= b {
        a - b
    } else {
        b - a
    }
}

/// The number of queens among the first `n` that attack a later queen.
pub open spec fn diagonal_collisions(genome: Seq<i32>, n: int) -> int
    decreases n,
{
    if n <= 0 {
        0
    } else {
        diagonal_collisions(genome, n - 1) + (if attacks_later(genome, n - 1) { 1int } else { 0int })
    }
}

/// The N-queens landscape: the share of queens (one per column, the gene its
/// row) that attack no later queen diagonally, rounded down.
pub fn n_queens(genome: &Vec<i32>, range: &Range<i32>) -> (r: i64)
    requires
        genome@.len() <= MAX_GENOME_LENGTH,
    ensures
        genome@.len() == 0 ==> r == 0,
        genome@.len() > 0 ==> r == (genome@.len() - diagonal_collisions(genome@, genome@.len() as int)) * FIXED_ONE
            / (genome@.len() as int),
        0 <= r <= FIXED_ONE,
{
    let n = genome.len();
    if n == 0 {
        return 0;
    }
    let mut collisions: usize = 0;
    let mut i: usize = 0;
    while i < n
        invariant
            n == genome@.len() <= MAX_GENOME_LENGTH,
            i <= n,
            collisions == diagonal_collisions(genome@, i as int),
            collisions <= i,
        decreases n - i,
    {
        let mut found = false;
        let mut j: usize = i + 1;
        while j < n
            invariant
                n == genome@.len() <= MAX_GENOME_LENGTH,
                i < n,
                i + 1 <= j <= n,
                found ==> attacks_later(genome@, i as int),
                !found ==> forall|k: int| i < k < j ==> #[trigger] abs_gap(genome@[i as int], genome@[k]) != k - i,
            ensures
                found ==> attacks_later(genome@, i as int),
                !found ==> forall|k: int| i < k < n ==> #[trigger] abs_gap(genome@[i as int], genome@[k]) != k - i,
            decreases n - j,
        {
            let gap: i64 = if genome[i] >= genome[j] {
                genome[i] as i64 - genome[j] as i64
            } else {
                genome[j] as i64 - genome[i] as i64
            };
            if gap == (j - i) as i64 {
                found = true;
                proof {
                    assert(abs_gap(genome@[i as int], genome@[j as int]) == j - i);
                }
                break;
            }
            j = j + 1;
        }
        if found {
            collisions = collisions + 1;
        }
        i = i + 1;
    }
    let kept = (n - collisions) as i64;
    proof {
        assert(0 <= kept * FIXED_ONE / (n as int) <= FIXED_ONE) by (nonlinear_arith)
            requires 0 <= kept <= n, n > 0, FIXED_ONE == 1_000_000;
    }
    kept * FIXED_ONE / (n as i64)
}

/// A gene read as a bit: zero or one.
pub open spec fn bit(gene: u8) -> int {
    if gene == 0 {
        0
    } else {
        1
    }
}

/// The deceptive trap of order three, indexed by a block's weighted bits.
pub open spec fn trap_value(index: int) -> int {
    if index == 0 {
        28
    } else if index == 1 {
        26
    } else if index == 2 {
        22
    } else if index == 4 {
        14
    } else if index == 7 {
        30
    } else {
        0
    }
}

fn trap(index: u8) -> (r: i64)
    ensures
        r == trap_value(index as int),
        0 <= r <= 30,
{
    if index == 0 {
        28
    } else if index == 1 {
        26
    } else if index == 2 {
        22
    } else if index == 4 {
        14
    } else if index == 7 {
        30
    } else {
        0
    }
}

fn as_bit(gene: u8) -> (r: u8)
    ensures
        r == bit(gene),
{
    if gene == 0 {
        0
    } else {
        1
    }
}

/// The trap values of the blocks `(i, i + gap, i + 2 * gap)` for `i`, `i + 3`,
/// ... while the block fits in the genome; a block's index weighs its bits
/// 3, 2 and 1.
pub open spec fn traps_from(genome: Seq<u8>, i: int, gap: int) -> int
    decreases genome.len() - i,
{
    if i < 0 || i + 2 * gap >= genome.len() || gap < 1 {
        0
    } else {
        trap_value(3 * bit(genome[i]) + 2 * bit(genome[i + gap]) + bit(genome[i + 2 * gap])) + traps_from(
            genome,
            i + 3,
            gap,
        )
    }
}

fn trap_sum(genome: &Vec<u8>, gap: usize) -> (r: i64)
    requires
        genome@.len() <= MAX_GENOME_LENGTH,
        1 <= gap <= 10,
    ensures
        r == traps_from(genome@, 0, gap as int) * FIXED_ONE,
        0 <= r <= MAX_FITNESS,
{
    let n = genome.len();
    let mut total: i64 = 0;
    let mut i: usize = 0;
    while i + 2 * gap < n
        invariant
            n == genome@.len() <= MAX_GENOME_LENGTH,
            1 <= gap <= 10,
            i % 3 == 0,
            i <= n + 3,
            total + traps_from(genome@, i as int, gap as int) == traps_from(genome@, 0, gap as int),
            0 <= total <= 10 * i,
        decreases n + 3 - i,
    {
        let index = 3 * as_bit(genome[i]) + 2 * as_bit(genome[i + gap]) + as_bit(genome[i + 2 * gap]);
        total = total + trap(index);
        i = i + 3;
    }
    proof {
        assert(total * FIXED_ONE <= MAX_FITNESS) by (nonlinear_arith)
            requires 0 <= total <= 10 * i, i <= 65539, FIXED_ONE == 1_000_000, MAX_FITNESS == 1_099_511_627_776;
    }
    total * FIXED_ONE
}

/// The order-three deceptive trap over consecutive blocks of three genes.
pub fn deceptive_f3(genome: &Vec<u8>, range: &Range<u8>) -> (r: i64)
    requires
        genome@.len() <= MAX_GENOME_LENGTH,
    ensures
        r == traps_from(genome@, 0, 1) * FIXED_ONE,
        0 <= r <= MAX_FITNESS,
{
    trap_sum(genome, 1)
}

/// The order-three deceptive trap over scattered blocks `(i, i + 10, i + 20)`.
pub fn deceptive_f3s(genome: &Vec<u8>, range: &Range<u8>) -> (r: i64)
    requires
        genome@.len() <= MAX_GENOME_LENGTH,
    ensures
        r == traps_from(genome@, 0, 10) * FIXED_ONE,
        0 <= r <= MAX_FITNESS,
{
    trap_sum(genome, 10)
}

/// The order-four deceptive trap value of a block with `ones` one bits.
pub open spec fn trap4_value(ones: int) -> int {
    if ones == 0 {
        5
    } else {
        ones
    }
}

/// The order-four trap values of the blocks of four genes from `i` on.
pub open spec fn traps4_from(genome: Seq<u8>, i: int) -> int
    decreases genome.len() - i,
{
    if i < 0 || i + 3 >= genome.len() {
        0
    } else {
        trap4_value(bit(genome[i]) + bit(genome[i + 1]) + bit(genome[i + 2]) + bit(genome[i + 3])) + traps4_from(
            genome,
            i + 4,
        )
    }
}

/// The order-four deceptive trap over consecutive blocks of four genes.
pub fn deceptive_4(genome: &Vec<u8>, range: &Range<u8>) -> (r: i64)
    requires
        genome@.len() <= MAX_GENOME_LENGTH,
    ensures
        r == traps4_from(genome@, 0) * FIXED_ONE,
        0 <= r <= MAX_FITNESS,
{
    let n = genome.len();
    let mut total: i64 = 0;
    let mut i: usize = 0;
    while i + 3 < n
        invariant
            n == genome@.len() <= MAX_GENOME_LENGTH,
            i % 4 == 0,
            i <= n + 4,
            total + traps4_from(genome@, i as int) == traps4_from(genome@, 0),
            0 <= total <= 2 * i,
        decreases n + 4 - i,
    {
        let ones = as_bit(genome[i]) + as_bit(genome[i + 1]) + as_bit(genome[i + 2]) + as_bit(genome[i + 3]);
        let value: i64 = if ones == 0 { 5 } else { ones as i64 };
        total = total + value;
        i = i + 4;
    }
    proof {
        assert(total * FIXED_ONE <= MAX_FITNESS) by (nonlinear_arith)
            requires 0 <= total <= 2 * i, i <= 65540, FIXED_ONE == 1_000_000, MAX_FITNESS == 1_099_511_627_776;
    }
    total * FIXED_ONE
}

} // verus!
