//! Gene ranges, bit-vector decoding, the distance functions and a stepping
//! counter.

use vstd::prelude::*;
use crate::fixed::{FIXED_ONE, MAX_GENOME_LENGTH};

verus! {

/// The closed interval `[start, end]` of gene values.
#[derive(Copy, Clone)]
pub struct Range<T> {
    pub start: T,
    pub end: T,
}

impl<T> Range<T> {
    pub fn new(start: T, end: T) -> (r: Range<T>)
        ensures
            r.start == start,
            r.end == end,
    {
        Range { start: start, end: end }
    }
}

/// The number that a bit vector spells, most significant bit first; a gene
/// counts as a one bit exactly when it equals 1.
pub open spec fn bits_value(bits: Seq<u8>) -> int
    decreases bits.len(),
{
    if bits.len() == 0 {
        0
    } else {
        2 * bits_value(bits.drop_last()) + (if bits.last() == 1 { 1int } else { 0int })
    }
}

proof fn lemma_bits_value_bound(bits: Seq<u8>)
    ensures
        0 <= bits_value(bits) < vstd::arithmetic::power2::pow2(bits.len() as nat),
    decreases bits.len(),
{
    if bits.len() > 0 {
        lemma_bits_value_bound(bits.drop_last());
        vstd::arithmetic::power2::lemma_pow2_unfold(bits.len() as nat);
    } else {
        vstd::arithmetic::power2::lemma2_to64();
    }
}

/// Decodes a bit vector of at most 31 genes into the number it spells.
pub fn binary_vector_to_decimal(binary_vector: &Vec<u8>) -> (r: i32)
    requires
        binary_vector@.len() <= 31,
    ensures
        r == bits_value(binary_vector@),
{
    let mut decimal: i32 = 0;
    let mut i: usize = 0;
    while i < binary_vector.len()
        invariant
            i <= binary_vector@.len() <= 31,
            decimal == bits_value(binary_vector@.subrange(0, i as int)),
        decreases binary_vector@.len() - i,
    {
        proof {
            let prefix = binary_vector@.subrange(0, i as int + 1);
            assert(prefix.drop_last() =~= binary_vector@.subrange(0, i as int));
            lemma_bits_value_bound(prefix);
            if prefix.len() < 31 {
                vstd::arithmetic::power2::lemma_pow2_strictly_increases(prefix.len(), 31);
            }
            vstd::arithmetic::power2::lemma2_to64();
        }
        let bit: i32 = if binary_vector[i] == 1 { 1 } else { 0 };
        decimal = 2 * decimal + bit;
        i = i + 1;
    }
    proof {
        assert(binary_vector@.subrange(0, i as int) =~= binary_vector@);
    }
    decimal
}

/// The number of positions below `n` at which the two sequences differ.
pub open spec fn mismatches<T>(a: Seq<T>, b: Seq<T>, n: int) -> int
    decreases n,
{
    if n <= 0 {
        0
    } else {
        mismatches(a, b, n - 1) + (if a[n - 1] != b[n - 1] { 1int } else { 0int })
    }
}

/// The normalised Hamming distance in fixed point: the share of differing
/// positions, rounded up, so that it is zero exactly for equal genomes.
pub open spec fn hamming_value(a: Seq<u8>, b: Seq<u8>) -> int {
    if a.len() == 0 {
        0
    } else {
        (mismatches(a, b, a.len() as int) * FIXED_ONE + a.len() - 1) / (a.len() as int)
    }
}

proof fn lemma_mismatches_bounds<T>(a: Seq<T>, b: Seq<T>, n: int)
    requires
        0 <= n <= a.len(),
        n <= b.len(),
    ensures
        0 <= mismatches(a, b, n) <= n,
        mismatches(a, b, n) == 0 <==> (forall|i: int| 0 <= i < n ==> a[i] == b[i]),
        mismatches(a, b, n) == mismatches(b, a, n),
    decreases n,
{
    if n > 0 {
        lemma_mismatches_bounds(a, b, n - 1);
        if mismatches(a, b, n) == 0 {
            assert forall|i: int| 0 <= i < n implies a[i] == b[i] by {
                if i < n - 1 {
                } else {
                }
            }
        }
    }
}

/// The Hamming distance is zero exactly on equal genomes, symmetric, and
/// between zero and `FIXED_ONE`.
pub proof fn lemma_hamming_laws(a: Seq<u8>, b: Seq<u8>)
    requires
        a.len() == b.len(),
    ensures
        hamming_value(a, a) == 0,
        hamming_value(a, b) == hamming_value(b, a),
        0 <= hamming_value(a, b) <= FIXED_ONE,
        hamming_value(a, b) == 0 <==> a == b,
{
    lemma_mismatches_bounds(a, a, a.len() as int);
    lemma_mismatches_bounds(a, b, a.len() as int);
    if a.len() > 0 {
        let n = a.len() as int;
        let m = mismatches(a, b, n);
        assert(0 <= (m * FIXED_ONE + n - 1) / n <= FIXED_ONE) by (nonlinear_arith)
            requires 0 <= m <= n, n > 0, FIXED_ONE == 1_000_000;
        assert((0 * FIXED_ONE + n - 1) / n == 0) by (nonlinear_arith)
            requires n > 0;
        if m > 0 {
            assert((m * FIXED_ONE + n - 1) / n > 0) by (nonlinear_arith)
                requires 0 < m <= n, FIXED_ONE == 1_000_000;
        }
        if hamming_value(a, b) == 0 {
            assert(a =~= b);
        }
    } else {
        assert(a =~= b);
    }
}

/// The normalised Hamming distance between two genomes of equal length, in
/// fixed point (zero for empty genomes).
pub fn hamming_distance(genome_one: &Vec<u8>, genome_two: &Vec<u8>, range: &Range<u8>) -> (r: i64)
    requires
        genome_one@.len() == genome_two@.len(),
    ensures
        r == hamming_value(genome_one@, genome_two@),
        0 <= r <= FIXED_ONE,
{
    proof {
        lemma_hamming_laws(genome_one@, genome_two@);
    }
    let n = genome_one.len();
    let mut total: usize = 0;
    let mut i: usize = 0;
    while i < n
        invariant
            n == genome_one@.len() == genome_two@.len(),
            i <= n,
            total == mismatches(genome_one@, genome_two@, i as int),
            total <= i,
        decreases n - i,
    {
        if genome_one[i] != genome_two[i] {
            total = total + 1;
        }
        i = i + 1;
    }
    if n == 0 {
        0
    } else {
        let scaled: u128 = (total as u128 * 1_000_000u128 + n as u128 - 1) / n as u128;
        scaled as i64
    }
}

/// A fixed-point square root: `r` is the floor of the square root of `x`.
pub open spec fn is_floor_sqrt(x: int, r: int) -> bool {
    0 <= r && r * r <= x < (r + 1) * (r + 1)
}

/// The floor of the square root of a non-negative number.
pub open spec fn floor_sqrt(x: int) -> int {
    choose|r: int| is_floor_sqrt(x, r)
}

proof fn lemma_floor_sqrt_unique(x: int, r: int)
    requires
        is_floor_sqrt(x, r),
    ensures
        floor_sqrt(x) == r,
{
    let s = floor_sqrt(x);
    assert(is_floor_sqrt(x, s));
    if s < r {
        assert((s + 1) * (s + 1) <= r * r) by (nonlinear_arith)
            requires 0 <= s < r;
    } else if r < s {
        assert((r + 1) * (r + 1) <= s * s) by (nonlinear_arith)
            requires 0 <= r < s;
    }
}

/// The floor of the square root of `x`, by bisection.
fn integer_sqrt(x: u128) -> (r: u128)
    requires
        x <= 1_000_000_000_000,
    ensures
        is_floor_sqrt(x as int, r as int),
{
    let mut low: u128 = 0;
    let mut high: u128 = 1_000_001;
    while high - low > 1
        invariant
            low < high <= 1_000_001,
            low * low <= x,
            x < high * high,
        decreases high - low,
    {
        let mid = low + (high - low) / 2;
        proof {
            assert(mid * mid <= 1_000_001 * 1_000_001) by (nonlinear_arith)
                requires mid <= 1_000_001;
        }
        if mid * mid <= x {
            low = mid;
        } else {
            high = mid;
        }
    }
    low
}

/// The sum of squared differences over the first `n` positions.
pub open spec fn squared_gaps(a: Seq<i32>, b: Seq<i32>, n: int) -> int
    decreases n,
{
    if n <= 0 {
        0
    } else {
        squared_gaps(a, b, n - 1) + (a[n - 1] - b[n - 1]) * (a[n - 1] - b[n - 1])
    }
}

/// The squared distance scaled so that the largest distance within the range
/// is `FIXED_ONE * FIXED_ONE`, and capped there.
pub open spec fn scaled_square(a: Seq<i32>, b: Seq<i32>, range: Range<i32>) -> int {
    let total = squared_gaps(a, b, a.len() as int);
    let width = range.end - range.start;
    let largest = a.len() * (width * width);
    if largest == 0 {
        if total == 0 { 0 } else { FIXED_ONE * FIXED_ONE }
    } else if total * (FIXED_ONE * FIXED_ONE) / largest > FIXED_ONE * FIXED_ONE {
        FIXED_ONE * FIXED_ONE
    } else {
        total * (FIXED_ONE * FIXED_ONE) / largest
    }
}

/// The normalised Euclidean distance of two integer genomes, in fixed point:
/// the root of the squared distance over the largest one the range allows.
pub open spec fn euclidean_value(a: Seq<i32>, b: Seq<i32>, range: Range<i32>) -> int {
    floor_sqrt(scaled_square(a, b, range))
}

proof fn lemma_squared_gaps(a: Seq<i32>, b: Seq<i32>, n: int)
    requires
        0 <= n <= a.len(),
        n <= b.len(),
    ensures
        0 <= squared_gaps(a, b, n),
        squared_gaps(a, b, n) == squared_gaps(b, a, n),
        squared_gaps(a, b, n) == 0 <==> (forall|i: int| 0 <= i < n ==> a[i] == b[i]),
        squared_gaps(a, b, n) <= n * 0x1_0000_0000_0000_0000,
    decreases n,
{
    if n > 0 {
        lemma_squared_gaps(a, b, n - 1);
        let d = a[n - 1] - b[n - 1];
        assert(0 <= d * d <= 0x1_0000_0000_0000_0000) by (nonlinear_arith)
            requires -0x1_0000_0000 < d < 0x1_0000_0000;
        assert((b[n - 1] - a[n - 1]) * (b[n - 1] - a[n - 1]) == d * d) by (nonlinear_arith)
            requires d == a[n - 1] - b[n - 1];
        assert(d * d == 0 <==> d == 0) by (nonlinear_arith);
        if squared_gaps(a, b, n) == 0 {
            assert forall|i: int| 0 <= i < n implies a[i] == b[i] by {
                if i < n - 1 {
                } else {
                }
            }
        }
    }
}

/// The Euclidean distance is zero on equal genomes, symmetric, and between
/// zero and `FIXED_ONE`.
pub proof fn lemma_euclidean_laws(a: Seq<i32>, b: Seq<i32>, range: Range<i32>)
    requires
        a.len() == b.len(),
    ensures
        euclidean_value(a, a, range) == 0,
        euclidean_value(a, b, range) == euclidean_value(b, a, range),
        0 <= euclidean_value(a, b, range) <= FIXED_ONE,
{
    lemma_squared_gaps(a, a, a.len() as int);
    lemma_squared_gaps(a, b, a.len() as int);
    let width = range.end - range.start;
    let largest = a.len() * (width * width);
    assert(largest >= 0) by (nonlinear_arith)
        requires largest == a.len() * (width * width);
    if largest != 0 {
        assert(0 * (FIXED_ONE * FIXED_ONE) / largest == 0) by (nonlinear_arith)
            requires largest > 0;
        let t = squared_gaps(a, b, a.len() as int);
        assert(t * (FIXED_ONE * FIXED_ONE) / largest >= 0) by (nonlinear_arith)
            requires largest > 0, t >= 0;
    }
    assert(is_floor_sqrt(0, 0));
    lemma_floor_sqrt_unique(0, 0);
    let q = scaled_square(a, b, range);
    assert(0 <= q <= FIXED_ONE * FIXED_ONE);
    let s = floor_sqrt(q);
    assert(exists|r: int| is_floor_sqrt(q, r)) by {
        lemma_floor_sqrt_exists(q, FIXED_ONE as int);
    }
    assert(is_floor_sqrt(q, s));
    assert(s <= FIXED_ONE) by (nonlinear_arith)
        requires s >= 0, s * s <= q, q <= FIXED_ONE * FIXED_ONE;
}

proof fn lemma_floor_sqrt_exists(x: int, bound: int)
    requires
        0 <= x <= bound * bound,
        0 <= bound,
    ensures
        exists|r: int| is_floor_sqrt(x, r),
    decreases bound,
{
    if bound == 0 {
        assert(bound * bound == 0) by (nonlinear_arith)
            requires bound == 0;
    }
    if (bound * bound) <= x {
        assert(x < (bound + 1) * (bound + 1)) by (nonlinear_arith)
            requires x <= bound * bound, bound >= 0;
        assert(is_floor_sqrt(x, bound));
    } else {
        assert(bound > 0);
        assert(x <= (bound - 1) * (bound - 1) || is_floor_sqrt(x, bound - 1)) by (nonlinear_arith)
            requires x < bound * bound, bound > 0, x >= 0;
        if !is_floor_sqrt(x, bound - 1) {
            lemma_floor_sqrt_exists(x, bound - 1);
        }
    }
}

/// The normalised Euclidean distance between two integer genomes of equal
/// length, in fixed point. A gene outside the range counts as farthest.
pub fn euclidean_distance_int(genome_one: &Vec<i32>, genome_two: &Vec<i32>, range: &Range<i32>) -> (r: i64)
    requires
        genome_one@.len() == genome_two@.len(),
        genome_one@.len() <= MAX_GENOME_LENGTH,
    ensures
        r == euclidean_value(genome_one@, genome_two@, *range),
        0 <= r <= FIXED_ONE,
{
    proof {
        lemma_euclidean_laws(genome_one@, genome_two@, *range);
    }
    let n = genome_one.len();
    let mut total: u128 = 0;
    let mut i: usize = 0;
    while i < n
        invariant
            n == genome_one@.len() == genome_two@.len(),
            n <= MAX_GENOME_LENGTH,
            i <= n,
            total == squared_gaps(genome_one@, genome_two@, i as int),
        decreases n - i,
    {
        proof {
            lemma_squared_gaps(genome_one@, genome_two@, i as int + 1);
            assert((i + 1) * 0x1_0000_0000_0000_0000 <= 0x1_0000_0000_0000_0000_0000) by (nonlinear_arith)
                requires i < 65536;
        }
        let d: i64 = genome_one[i] as i64 - genome_two[i] as i64;
        let m: u64 = if d >= 0 { d as u64 } else { (-d) as u64 };
        proof {
            assert(m * m == d * d) by (nonlinear_arith)
                requires m == d || m == -d;
            assert(m * m <= 0x1_0000_0000_0000_0000) by (nonlinear_arith)
                requires m <= 0x1_0000_0000;
        }
        total = total + (m as u128) * (m as u128);
        i = i + 1;
    }
    let gap: i64 = range.end as i64 - range.start as i64;
    let width: u64 = if gap >= 0 { gap as u64 } else { (-gap) as u64 };
    proof {
        assert(width * width == gap * gap) by (nonlinear_arith)
            requires width == gap || width == -gap;
        assert(width * width <= 0x1_0000_0000_0000_0000) by (nonlinear_arith)
            requires width <= 0x1_0000_0000;
        assert(n * (width * width) <= 0x1_0000_0000_0000_0000_0000) by (nonlinear_arith)
            requires n <= 65536, width * width <= 0x1_0000_0000_0000_0000;
        lemma_squared_gaps(genome_one@, genome_two@, n as int);
        assert(total <= 0x1_0000_0000_0000_0000_0000) by (nonlinear_arith)
            requires total <= n * 0x1_0000_0000_0000_0000, n <= 65536;
    }
    let largest: u128 = (n as u128) * ((width as u128) * (width as u128));
    let unit: u128 = 1_000_000_000_000;
    let capped: u128 = if largest == 0 {
        if total == 0 { 0 } else { unit }
    } else {
        let q = total * unit / largest;
        if q > unit { unit } else { q }
    };
    let root = integer_sqrt(capped);
    proof {
        lemma_floor_sqrt_unique(capped as int, root as int);
        assert(root <= 1_000_000) by (nonlinear_arith)
            requires root * root <= capped, capped <= 1_000_000_000_000, root >= 0;
    }
    root as i64
}

/// A counter from `.0` (inclusive) to `.1` (exclusive) in steps of `.2`.
pub struct SimpleStepRange(pub usize, pub usize, pub usize);

impl SimpleStepRange {
    /// The current value, advancing by one step, while it lies below the end.
    pub fn next(&mut self) -> (r: Option<usize>)
        requires
            old(self).0 < old(self).1 ==> old(self).0 + old(self).2 <= usize::MAX,
        ensures
            old(self).0 < old(self).1 ==> r == Some(old(self).0) && final(self).0 == old(self).0 + old(self).2,
            old(self).0 >= old(self).1 ==> r is None && final(self).0 == old(self).0,
            final(self).1 == old(self).1,
            final(self).2 == old(self).2,
    {
        if self.0 < self.1 {
            let v = self.0;
            self.0 = v + self.2;
            Some(v)
        } else {
            None
        }
    }
}

} // verus!
