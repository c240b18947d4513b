//! Fixed-point numbers. Fitness values and genome distances are integers
//! counted in millionths: `FIXED_ONE` stands for the real number 1.

use vstd::prelude::*;

verus! {

/// The fixed-point unit: a value `v` stands for the real number `v / FIXED_ONE`.
pub const FIXED_ONE: i64 = 1_000_000;

/// The largest magnitude of a fitness value, in fixed point (about 1.1e6).
pub const MAX_FITNESS: i64 = 1_099_511_627_776;

/// The longest genome the library evaluates, a machine limit that keeps
/// fixed-point sums of per-gene terms within 64 bits.
pub const MAX_GENOME_LENGTH: usize = 65_536;

/// The largest population, a machine limit that keeps sums over all pairs of
/// individuals within 64 bits.
pub const MAX_POPULATION_SIZE: usize = 1_048_576;

/// Floor of `a / b` for a positive `b`, the division every fixed-point
/// formula of the library uses.
pub open spec fn floor_div(a: int, b: int) -> int
    recommends
        b > 0,
{
    a / b
}

/// `floor(a / b)` computed on machine integers.
pub fn floor_div_i128(a: i128, b: i128) -> (r: i128)
    requires
        b > 0,
        a > i128::MIN,
    ensures
        r == floor_div(a as int, b as int),
{
    if a >= 0 {
        let q = a / b;
        proof {
            lemma_floor_div_nonneg(a as int, b as int);
        }
        q
    } else {
        let n: i128 = -a;
        let q: i128 = if n % b == 0 {
            n / b
        } else {
            proof {
                vstd::arithmetic::div_mod::lemma_div_is_ordered_by_denominator(n as int, 2, b as int);
            }
            n / b + 1
        };
        proof {
            lemma_floor_div_neg(a as int, b as int, q as int);
        }
        -q
    }
}

proof fn lemma_floor_div_nonneg(a: int, b: int)
    requires
        a >= 0,
        b > 0,
    ensures
        a / b == floor_div(a, b),
{
}

proof fn lemma_floor_div_neg(a: int, b: int, q: int)
    requires
        a < 0,
        b > 0,
        q == (if (-a) % b == 0 { (-a) / b } else { (-a) / b + 1 }),
    ensures
        -q == a / b,
{
    let n = -a;
    vstd::arithmetic::div_mod::lemma_fundamental_div_mod(n, b);
    vstd::arithmetic::div_mod::lemma_fundamental_div_mod(a, b);
    let d = a / b;
    let m = a % b;
    let e = n / b;
    let k = n % b;
    assert(0 <= k < b && 0 <= m < b);
    if k == 0 {
        assert(d == -e) by (nonlinear_arith)
            requires b * d + m == a, 0 <= m < b, b * e == -a, b > 0;
    } else {
        assert(d == -e - 1) by (nonlinear_arith)
            requires b * d + m == a, 0 <= m < b, b * e + k == -a, 0 < k < b, b > 0;
    }
}

} // verus!
