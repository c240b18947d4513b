//! Crossover operators: each takes two parent genomes of equal length and
//! returns two offspring of that length.

use vstd::prelude::*;
use crate::operators::{is_permutation, lemma_permutation_contains, Gene};
use crate::population::copy_genome;
use crate::random::{coin, draw_below, PROBABILITY_ONE};
use rand::rngs::StdRng;

verus! {

/// The child that takes the genes at positions `0 ..= point` from `head` and
/// the rest from `tail`.
pub open spec fn one_point_child<T>(tail: Seq<T>, head: Seq<T>, point: int) -> Seq<T> {
    Seq::new(tail.len(), |i: int| if i <= point { head[i] } else { tail[i] })
}

/// One-point crossover at a given cut: the boy takes the mother's genes up to
/// and including `point` and the father's after it; the girl the reverse.
pub fn one_point_crossover_at<T: Copy>(dad_genome: &Vec<T>, mom_genome: &Vec<T>, point: usize) -> (r: (Vec<T>, Vec<T>))
    requires
        dad_genome@.len() == mom_genome@.len(),
    ensures
        r.0@ == one_point_child(dad_genome@, mom_genome@, point as int),
        r.1@ == one_point_child(mom_genome@, dad_genome@, point as int),
{
    let mut boy: Vec<T> = Vec::new();
    let mut girl: Vec<T> = Vec::new();
    let mut i: usize = 0;
    while i < dad_genome.len()
        invariant
            dad_genome@.len() == mom_genome@.len(),
            i <= dad_genome@.len(),
            boy@ == one_point_child(dad_genome@, mom_genome@, point as int).subrange(0, i as int),
            girl@ == one_point_child(mom_genome@, dad_genome@, point as int).subrange(0, i as int),
        decreases dad_genome@.len() - i,
    {
        if i <= point {
            boy.push(mom_genome[i]);
            girl.push(dad_genome[i]);
        } else {
            boy.push(dad_genome[i]);
            girl.push(mom_genome[i]);
        }
        i = i + 1;
        proof {
            assert(boy@ =~= one_point_child(dad_genome@, mom_genome@, point as int).subrange(0, i as int));
            assert(girl@ =~= one_point_child(mom_genome@, dad_genome@, point as int).subrange(0, i as int));
        }
    }
    proof {
        assert(boy@ =~= one_point_child(dad_genome@, mom_genome@, point as int));
        assert(girl@ =~= one_point_child(mom_genome@, dad_genome@, point as int));
    }
    (boy, girl)
}

/// `boy` and `girl` are the offspring of one-point crossover at an internal
/// cut `1 <= point <= len - 2` (the cut after the first gene, for genomes of
/// two genes).
pub open spec fn one_point_pair<T>(dad: Seq<T>, mom: Seq<T>, boy: Seq<T>, girl: Seq<T>) -> bool {
    exists|point: int|
        {
            &&& (if dad.len() == 2 { point == 0 } else { 1 <= point <= dad.len() - 2 })
            &&& boy == #[trigger] one_point_child(dad, mom, point)
            &&& girl == one_point_child(mom, dad, point)
        }
}

/// One-point crossover at a random internal cut `1 <= point <= len - 2` (the
/// cut after the first gene, for genomes of two genes).
pub fn one_point_crossover<T: Copy>(rng: &mut StdRng, dad_genome: &Vec<T>, mom_genome: &Vec<T>) -> (r: (Vec<T>, Vec<T>))
    requires
        dad_genome@.len() == mom_genome@.len(),
        dad_genome@.len() >= 2,
    ensures
        one_point_pair(dad_genome@, mom_genome@, r.0@, r.1@),
{
    let len = dad_genome.len();
    let point: usize = if len == 2 {
        0
    } else {
        1 + draw_below(rng, (len - 2) as u64) as usize
    };
    let r = one_point_crossover_at(dad_genome, mom_genome, point);
    proof {
        assert(one_point_pair(dad_genome@, mom_genome@, r.0@, r.1@)) by {
            assert(r.0@ == one_point_child(dad_genome@, mom_genome@, point as int));
        }
    }
    r
}

/// One-point crossover at a random cut that is a multiple of three, between
/// 3 and `len - 4`, so that blocks of three genes stay together.
pub fn one_point_crossover_3<T: Copy>(rng: &mut StdRng, dad_genome: &Vec<T>, mom_genome: &Vec<T>) -> (r: (
    Vec<T>,
    Vec<T>,
))
    requires
        dad_genome@.len() == mom_genome@.len(),
        dad_genome@.len() >= 7,
    ensures
        exists|point: int|
            {
                &&& 3 <= point <= dad_genome@.len() - 4
                &&& point % 3 == 0
                &&& r.0@ == #[trigger] one_point_child(dad_genome@, mom_genome@, point)
                &&& r.1@ == one_point_child(mom_genome@, dad_genome@, point)
            },
{
    let blocks: u64 = ((dad_genome.len() - 4) / 3) as u64;
    let point: usize = 3 * (1 + draw_below(rng, blocks) as usize);
    proof {
        assert(point % 3 == 0);
    }
    one_point_crossover_at(dad_genome, mom_genome, point)
}

/// The two genes at a position are either kept or exchanged.
pub open spec fn kept_or_swapped<T>(dad: Seq<T>, mom: Seq<T>, boy: Seq<T>, girl: Seq<T>, i: int) -> bool {
    (boy[i] == dad[i] && girl[i] == mom[i]) || (boy[i] == mom[i] && girl[i] == dad[i])
}

/// Uniform crossover: at each position, with probability one half, the two
/// offspring exchange the parents' genes.
pub fn uniform_crossover<T: Copy>(rng: &mut StdRng, dad_genome: &Vec<T>, mom_genome: &Vec<T>) -> (r: (Vec<T>, Vec<T>))
    requires
        dad_genome@.len() == mom_genome@.len(),
    ensures
        r.0@.len() == dad_genome@.len(),
        r.1@.len() == dad_genome@.len(),
        forall|i: int| 0 <= i < dad_genome@.len() ==> #[trigger] kept_or_swapped(dad_genome@, mom_genome@, r.0@, r.1@, i),
{
    let mut boy: Vec<T> = Vec::new();
    let mut girl: Vec<T> = Vec::new();
    let mut i: usize = 0;
    while i < dad_genome.len()
        invariant
            dad_genome@.len() == mom_genome@.len(),
            i <= dad_genome@.len(),
            boy@.len() == i,
            girl@.len() == i,
            forall|k: int| 0 <= k < i ==> #[trigger] kept_or_swapped(dad_genome@, mom_genome@, boy@, girl@, k),
        decreases dad_genome@.len() - i,
    {
        let ghost before_boy = boy@;
        let ghost before_girl = girl@;
        if coin(rng, PROBABILITY_ONE / 2) {
            boy.push(mom_genome[i]);
            girl.push(dad_genome[i]);
        } else {
            boy.push(dad_genome[i]);
            girl.push(mom_genome[i]);
        }
        i = i + 1;
        proof {
            assert forall|k: int| 0 <= k < i implies #[trigger] kept_or_swapped(
                dad_genome@,
                mom_genome@,
                boy@,
                girl@,
                k,
            ) by {
                if k < i - 1 {
                    assert(kept_or_swapped(dad_genome@, mom_genome@, before_boy, before_girl, k));
                    assert(boy@[k] == before_boy[k] && girl@[k] == before_girl[k]);
                }
            }
        }
    }
    (boy, girl)
}

/// The offspring exchange the parents' genes in exactly the blocks of three
/// marked in `swaps`, and keep them elsewhere.
pub open spec fn swapped_in_blocks<T>(dad: Seq<T>, mom: Seq<T>, boy: Seq<T>, girl: Seq<T>, swaps: Seq<bool>) -> bool {
    &&& boy.len() == dad.len()
    &&& girl.len() == dad.len()
    &&& swaps.len() == dad.len() / 3
    &&& forall|i: int|
        0 <= i < dad.len() ==> if #[trigger] swaps[i / 3] {
            boy[i] == mom[i] && girl[i] == dad[i]
        } else {
            boy[i] == dad[i] && girl[i] == mom[i]
        }
}

/// Uniform crossover over blocks of three genes: each block is kept or
/// exchanged as a whole, with probability one half.
pub fn uniform_crossover_3<T: Copy>(rng: &mut StdRng, dad_genome: &Vec<T>, mom_genome: &Vec<T>) -> (r: (
    Vec<T>,
    Vec<T>,
))
    requires
        dad_genome@.len() == mom_genome@.len(),
        dad_genome@.len() % 3 == 0,
    ensures
        exists|swaps: Seq<bool>| #[trigger] swapped_in_blocks(dad_genome@, mom_genome@, r.0@, r.1@, swaps),
{
    let n = dad_genome.len();
    let mut boy: Vec<T> = Vec::new();
    let mut girl: Vec<T> = Vec::new();
    let ghost mut swaps: Seq<bool> = Seq::empty();
    let mut i: usize = 0;
    while i < n
        invariant
            n == dad_genome@.len() == mom_genome@.len(),
            n % 3 == 0,
            i <= n,
            i % 3 == 0,
            boy@.len() == i,
            girl@.len() == i,
            swaps.len() == i / 3,
            forall|k: int|
                0 <= k < i ==> if #[trigger] swaps[k / 3] {
                    boy@[k] == mom_genome@[k] && girl@[k] == dad_genome@[k]
                } else {
                    boy@[k] == dad_genome@[k] && girl@[k] == mom_genome@[k]
                },
        decreases n - i,
    {
        let swap = coin(rng, PROBABILITY_ONE / 2);
        let ghost before_boy = boy@;
        let ghost before_girl = girl@;
        let ghost before_swaps = swaps;
        proof {
            swaps = swaps.push(swap);
        }
        if swap {
            boy.push(mom_genome[i]);
            girl.push(dad_genome[i]);
            boy.push(mom_genome[i + 1]);
            girl.push(dad_genome[i + 1]);
            boy.push(mom_genome[i + 2]);
            girl.push(dad_genome[i + 2]);
        } else {
            boy.push(dad_genome[i]);
            girl.push(mom_genome[i]);
            boy.push(dad_genome[i + 1]);
            girl.push(mom_genome[i + 1]);
            boy.push(dad_genome[i + 2]);
            girl.push(mom_genome[i + 2]);
        }
        i = i + 3;
        proof {
            assert forall|k: int| 0 <= k < i implies if #[trigger] swaps[k / 3] {
                boy@[k] == mom_genome@[k] && girl@[k] == dad_genome@[k]
            } else {
                boy@[k] == dad_genome@[k] && girl@[k] == mom_genome@[k]
            } by {
                if k < i - 3 {
                    assert(boy@[k] == before_boy[k]);
                    assert(girl@[k] == before_girl[k]);
                    assert(swaps[k / 3] == before_swaps[k / 3]);
                } else {
                    assert(k / 3 == (i - 3) / 3);
                    assert(swaps[k / 3] == swap);
                    assert(i - 3 <= k < i);
                    if swap {
                        assert(boy@[k] == mom_genome@[k] && girl@[k] == dad_genome@[k]);
                    } else {
                        assert(boy@[k] == dad_genome@[k] && girl@[k] == mom_genome@[k]);
                    }
                }
            }
        }
    }
    let r = (boy, girl);
    proof {
        assert(swapped_in_blocks(dad_genome@, mom_genome@, r.0@, r.1@, swaps));
    }
    r
}

/// The sum of two genes halved, rounded toward zero.
pub open spec fn average_gene(a: int, b: int) -> int {
    if a + b >= 0 {
        (a + b) / 2
    } else {
        -((-(a + b)) / 2)
    }
}

/// Uniform average crossover: at each position the average of the parents'
/// genes replaces, with probability one half, the boy's gene (the father's),
/// and otherwise the girl's (the mother's).
pub fn uniform_average_crossover(rng: &mut StdRng, dad_genome: &Vec<i32>, mom_genome: &Vec<i32>) -> (r: (
    Vec<i32>,
    Vec<i32>,
))
    requires
        dad_genome@.len() == mom_genome@.len(),
    ensures
        r.0@.len() == dad_genome@.len(),
        r.1@.len() == dad_genome@.len(),
        forall|i: int|
            0 <= i < dad_genome@.len() ==> (#[trigger] r.0@[i] == average_gene(dad_genome@[i] as int, mom_genome@[i] as int)
                && r.1@[i] == mom_genome@[i]) || (r.0@[i] == dad_genome@[i] && r.1@[i] == average_gene(
                dad_genome@[i] as int,
                mom_genome@[i] as int,
            )),
{
    let mut boy: Vec<i32> = Vec::new();
    let mut girl: Vec<i32> = Vec::new();
    let mut i: usize = 0;
    while i < dad_genome.len()
        invariant
            dad_genome@.len() == mom_genome@.len(),
            i <= dad_genome@.len(),
            boy@.len() == i,
            girl@.len() == i,
            forall|k: int|
                0 <= k < i ==> (#[trigger] boy@[k] == average_gene(dad_genome@[k] as int, mom_genome@[k] as int)
                    && girl@[k] == mom_genome@[k]) || (boy@[k] == dad_genome@[k] && girl@[k] == average_gene(
                    dad_genome@[k] as int,
                    mom_genome@[k] as int,
                )),
        decreases dad_genome@.len() - i,
    {
        let sum: i64 = dad_genome[i] as i64 + mom_genome[i] as i64;
        let half: i64 = if sum >= 0 { sum / 2 } else { -((-sum) / 2) };
        proof {
            assert(half == average_gene(dad_genome@[i as int] as int, mom_genome@[i as int] as int));
            assert(-0x8000_0000 <= half < 0x8000_0000);
        }
        let average = half as i32;
        let ghost before_boy = boy@;
        let ghost before_girl = girl@;
        if coin(rng, PROBABILITY_ONE / 2) {
            boy.push(average);
            girl.push(mom_genome[i]);
        } else {
            boy.push(dad_genome[i]);
            girl.push(average);
        }
        i = i + 1;
        proof {
            assert forall|k: int| 0 <= k < i - 1 implies boy@[k] == before_boy[k] && girl@[k] == before_girl[k] by {}
        }
    }
    (boy, girl)
}

/// The value occurs in `genome[start .. end]`.
pub open spec fn segment_holds(genome: Seq<i32>, start: int, end: int, v: i32) -> bool {
    exists|j: int| start <= j < end && #[trigger] genome[j] == v
}

/// The position of `v` in `genome`, if any.
fn position_of(genome: &Vec<i32>, v: i32) -> (r: Option<usize>)
    ensures
        match r {
            Some(k) => k < genome@.len() && genome@[k as int] == v,
            None => forall|k: int| 0 <= k < genome@.len() ==> genome@[k] != v,
        },
{
    let mut k: usize = 0;
    while k < genome.len()
        invariant
            k <= genome@.len(),
            forall|m: int| 0 <= m < k ==> genome@[m] != v,
        decreases genome@.len() - k,
    {
        if genome[k] == v {
            return Some(k);
        }
        k = k + 1;
    }
    None
}

/// No gene occurs twice.
pub open spec fn distinct_genes(genome: Seq<i32>) -> bool {
    forall|i: int, j: int| 0 <= i < j < genome.len() ==> genome[i] != genome[j]
}

/// `a` and `b` are rearrangements of one set of distinct genes.
pub open spec fn is_rearrangement(a: Seq<i32>, b: Seq<i32>) -> bool {
    &&& a.len() == b.len()
    &&& distinct_genes(a)
    &&& distinct_genes(b)
    &&& forall|i: int| 0 <= i < a.len() ==> b.contains(#[trigger] a[i])
    &&& forall|i: int| 0 <= i < b.len() ==> a.contains(#[trigger] b[i])
}

/// Two permutations of `0 .. len` are rearrangements of each other.
pub proof fn lemma_permutations_are_rearrangements(a: Seq<i32>, b: Seq<i32>)
    requires
        a.len() == b.len(),
        is_permutation(a),
        is_permutation(b),
    ensures
        is_rearrangement(a, b),
{
    assert forall|i: int, j: int| 0 <= i < j < a.len() implies a[i] != b[j] || true by {}
    assert(distinct_genes(a)) by {
        assert forall|i: int, j: int| 0 <= i < j < a.len() implies a[i] != a[j] by {
            assert(a[i].value() != a[j].value());
        }
    }
    assert(distinct_genes(b)) by {
        assert forall|i: int, j: int| 0 <= i < j < b.len() implies b[i] != b[j] by {
            assert(b[i].value() != b[j].value());
        }
    }
    assert forall|i: int| 0 <= i < a.len() implies b.contains(#[trigger] a[i]) by {
        assert(0 <= a[i].value() < a.len());
        lemma_permutation_contains(b, a[i] as int);
    }
    assert forall|i: int| 0 <= i < b.len() implies a.contains(#[trigger] b[i]) by {
        assert(0 <= b[i].value() < b.len());
        lemma_permutation_contains(a, b[i] as int);
    }
}

/// A rearrangement of a permutation of `0 .. len` is one too.
pub proof fn lemma_rearranged_permutation(a: Seq<i32>, b: Seq<i32>)
    requires
        is_permutation(a),
        is_rearrangement(a, b),
    ensures
        is_permutation(b),
{
    assert forall|i: int| 0 <= i < b.len() implies 0 <= #[trigger] b[i].value() < b.len() by {
        assert(a.contains(b[i]));
        let k = choose|k: int| 0 <= k < a.len() && a[k] == b[i];
        assert(a[k].value() == b[i].value());
    }
    assert forall|i: int, j: int| 0 <= i < j < b.len() implies #[trigger] b[i].value() != #[trigger] b[j].value() by {
        assert(b[i] != b[j]);
    }
}

proof fn lemma_swap_keeps_rearrangement(base: Seq<i32>, s: Seq<i32>, x: int, y: int)
    requires
        is_rearrangement(base, s),
        0 <= x < s.len(),
        0 <= y < s.len(),
    ensures
        is_rearrangement(base, s.update(x, s[y]).update(y, s[x])),
{
    let t = s.update(x, s[y]).update(y, s[x]);
    let from = |i: int| if i == y { x } else if i == x { y } else { i };
    assert forall|i: int| 0 <= i < t.len() implies t[i] == s[from(i)] by {}
    assert(distinct_genes(t)) by {
        assert forall|i: int, j: int| 0 <= i < j < t.len() implies t[i] != t[j] by {
            assert(t[i] == s[from(i)] && t[j] == s[from(j)]);
            assert(from(i) != from(j));
            if from(i) < from(j) {
                assert(s[from(i)] != s[from(j)]);
            } else {
                assert(s[from(j)] != s[from(i)]);
            }
        }
    }
    assert forall|i: int| 0 <= i < base.len() implies t.contains(#[trigger] base[i]) by {
        assert(s.contains(base[i]));
        let k = choose|k: int| 0 <= k < s.len() && s[k] == base[i];
        let at = if k == x { y } else if k == y { x } else { k };
        assert(t[at] == s[k]);
    }
    assert forall|i: int| 0 <= i < t.len() implies base.contains(#[trigger] t[i]) by {
        assert(t[i] == s[from(i)]);
        assert(base.contains(s[from(i)]));
    }
}

/// What partially matched crossover promises of an offspring of `base` that
/// takes the segment `[start, end)` from `donor`: the length of the base;
/// and, when the parents are rearrangements of one set of distinct genes, a
/// rearrangement of them too, with the donor's genes on the segment and the
/// base's genes wherever the base's gene does not occur in the donor's
/// segment.
pub open spec fn matched_offspring(base: Seq<i32>, donor: Seq<i32>, start: int, end: int, child: Seq<i32>) -> bool {
    &&& child.len() == base.len()
    &&& is_rearrangement(base, donor) ==> {
        &&& is_rearrangement(base, child)
        &&& forall|j: int| start <= j < end ==> #[trigger] child[j] == donor[j]
        &&& forall|i: int|
            0 <= i < base.len() && !(start <= i < end) && !segment_holds(donor, start, end, base[i]) ==> #[trigger] child[i]
                == base[i]
    }
}

/// One offspring of partially matched crossover: a copy of `base` in which,
/// for each position of the segment `[start, end)` in turn, the gene that the
/// `donor` has there is swapped into place (see `matched_offspring`).
pub fn partially_matched_child(base: &Vec<i32>, donor: &Vec<i32>, start: usize, end: usize) -> (r: Vec<i32>)
    requires
        base@.len() == donor@.len(),
        start <= end <= base@.len(),
    ensures
        matched_offspring(base@, donor@, start as int, end as int, r@),
{
    let ghost both = is_rearrangement(base@, donor@);
    let mut child = copy_genome(base);
    proof {
        if both {
            assert forall|i: int| 0 <= i < base@.len() implies child@.contains(#[trigger] base@[i]) by {
                assert(child@[i] == base@[i]);
            }
            assert forall|i: int| 0 <= i < child@.len() implies base@.contains(#[trigger] child@[i]) by {
                assert(child@[i] == base@[i]);
            }
        }
    }
    let mut j: usize = start;
    while j < end
        invariant
            base@.len() == donor@.len(),
            child@.len() == base@.len(),
            start <= j <= end <= base@.len(),
            both == is_rearrangement(base@, donor@),
            both ==> is_rearrangement(base@, child@),
            both ==> forall|t: int| start <= t < j ==> #[trigger] child@[t] == donor@[t],
            both ==> forall|i: int|
                0 <= i < base@.len() && !(start <= i < end) && !segment_holds(donor@, start as int, end as int, base@[i])
                    ==> #[trigger] child@[i] == base@[i],
        decreases end - j,
    {
        let v = donor[j];
        proof {
            if both {
                assert(base@.contains(donor@[j as int]));
                let b = choose|b: int| 0 <= b < base@.len() && base@[b] == v;
                assert(child@.contains(base@[b]));
            }
        }
        match position_of(&child, v) {
            Some(k) => {
                let ghost before = child@;
                let here = child[j];
                child.set(j, v);
                child.set(k, here);
                proof {
                    assert(child@ == before.update(j as int, before[k as int]).update(k as int, before[j as int]));
                    if both {
                        lemma_swap_keeps_rearrangement(base@, before, j as int, k as int);
                        assert forall|t: int| start <= t < j + 1 implies #[trigger] child@[t] == donor@[t] by {
                            if t < j {
                                assert(before[t] == donor@[t]);
                                assert(donor@[t] != donor@[j as int]);
                                assert(t != k);
                            }
                        }
                        assert forall|i: int|
                            0 <= i < base@.len() && !(start <= i < end) && !segment_holds(
                                donor@,
                                start as int,
                                end as int,
                                base@[i],
                            ) implies #[trigger] child@[i] == base@[i] by {
                            assert(before[i] == base@[i]);
                            if i == k {
                                assert(segment_holds(donor@, start as int, end as int, base@[i]));
                            }
                        }
                    }
                }
            },
            None => {},
        }
        j = j + 1;
    }
    child
}

/// Partially matched crossover with the segment `[start, end)`: the boy is
/// the father's offspring with the mother's segment, the girl the mother's
/// with the father's segment.
pub fn partially_matched_crossover_at(dad_genome: &Vec<i32>, mom_genome: &Vec<i32>, start: usize, end: usize) -> (r: (
    Vec<i32>,
    Vec<i32>,
))
    requires
        dad_genome@.len() == mom_genome@.len(),
        start <= end <= dad_genome@.len(),
    ensures
        matched_offspring(dad_genome@, mom_genome@, start as int, end as int, r.0@),
        matched_offspring(mom_genome@, dad_genome@, start as int, end as int, r.1@),
{
    let boy = partially_matched_child(dad_genome, mom_genome, start, end);
    let girl = partially_matched_child(mom_genome, dad_genome, start, end);
    (boy, girl)
}

/// A crossover operator was handed parents outside its domain.
pub enum OperatorContractViolation {
    /// Partially matched crossover needs two rearrangements of one set of
    /// distinct genes.
    NotRearrangements,
}

/// Whether `genome` holds `v` among its first `n` genes.
fn holds_gene(genome: &Vec<i32>, n: usize, v: i32) -> (r: bool)
    requires
        n <= genome@.len(),
    ensures
        r == exists|k: int| 0 <= k < n && genome@[k] == v,
{
    let mut k: usize = 0;
    while k < n
        invariant
            n <= genome@.len(),
            k <= n,
            forall|m: int| 0 <= m < k ==> genome@[m] != v,
        decreases n - k,
    {
        if genome[k] == v {
            return true;
        }
        k = k + 1;
    }
    false
}

/// Whether `a` and `b` are rearrangements of one set of distinct genes.
pub fn check_rearrangement(a: &Vec<i32>, b: &Vec<i32>) -> (r: bool)
    ensures
        r == is_rearrangement(a@, b@),
{
    if a.len() != b.len() {
        return false;
    }
    let n = a.len();
    let mut i: usize = 0;
    while i < n
        invariant
            n == a@.len() == b@.len(),
            i <= n,
            forall|x: int, y: int| 0 <= x < y < i ==> a@[x] != a@[y],
            forall|x: int, y: int| 0 <= x < y < i ==> b@[x] != b@[y],
            forall|x: int| 0 <= x < i ==> b@.contains(#[trigger] a@[x]),
            forall|x: int| 0 <= x < i ==> a@.contains(#[trigger] b@[x]),
        decreases n - i,
    {
        if holds_gene(a, i, a[i]) || holds_gene(b, i, b[i]) {
            proof {
                if exists|k: int| 0 <= k < i && a@[k] == a@[i as int] {
                    let k = choose|k: int| 0 <= k < i && a@[k] == a@[i as int];
                    assert(!distinct_genes(a@));
                } else {
                    let k = choose|k: int| 0 <= k < i && b@[k] == b@[i as int];
                    assert(!distinct_genes(b@));
                }
            }
            return false;
        }
        if !holds_gene(b, n, a[i]) {
            proof {
                assert(!b@.contains(a@[i as int]));
            }
            return false;
        }
        if !holds_gene(a, n, b[i]) {
            proof {
                assert(!a@.contains(b@[i as int]));
            }
            return false;
        }
        proof {
            let k = choose|k: int| 0 <= k < n && b@[k] == a@[i as int];
            assert(b@.contains(a@[i as int]));
            let k2 = choose|k: int| 0 <= k < n && a@[k] == b@[i as int];
            assert(a@.contains(b@[i as int]));
        }
        i = i + 1;
    }
    true
}

/// `boy` and `girl` are the offspring of partially matched crossover of
/// `dad` and `mom` over some segment `[start, end)` with
/// `1 <= start < len / 2 <= end <= len - 2`.
pub open spec fn matched_pair(dad: Seq<i32>, mom: Seq<i32>, boy: Seq<i32>, girl: Seq<i32>) -> bool {
    exists|start: int, end: int|
        {
            &&& 1 <= start < dad.len() / 2 <= end <= dad.len() - 2
            &&& #[trigger] matched_offspring(dad, mom, start, end, boy)
            &&& matched_offspring(mom, dad, start, end, girl)
        }
}

/// Partially matched crossover with a random segment `[start, end)`, where
/// `1 <= start < len / 2 <= end <= len - 2`. Parents that are not
/// rearrangements of one set of distinct genes are refused.
pub fn partially_matched_crossover(rng: &mut StdRng, dad_genome: &Vec<i32>, mom_genome: &Vec<i32>) -> (r: Result<
    (Vec<i32>, Vec<i32>),
    OperatorContractViolation,
>)
    requires
        dad_genome@.len() == mom_genome@.len(),
        dad_genome@.len() >= 4,
    ensures
        r is Ok <==> is_rearrangement(dad_genome@, mom_genome@),
        match r {
            Ok(offspring) => matched_pair(dad_genome@, mom_genome@, offspring.0@, offspring.1@),
            Err(_) => true,
        },
{
    if !check_rearrangement(dad_genome, mom_genome) {
        return Err(OperatorContractViolation::NotRearrangements);
    }
    let len = dad_genome.len();
    let half = len / 2;
    let start: usize = 1 + draw_below(rng, (half - 1) as u64) as usize;
    let end: usize = half + draw_below(rng, (len - 1 - half) as u64) as usize;
    let r = partially_matched_crossover_at(dad_genome, mom_genome, start, end);
    proof {
        assert(matched_offspring(dad_genome@, mom_genome@, start as int, end as int, r.0@));
        assert(matched_offspring(mom_genome@, dad_genome@, start as int, end as int, r.1@));
        assert(1 <= start < dad_genome@.len() / 2 <= end <= dad_genome@.len() - 2);
        assert(matched_pair(dad_genome@, mom_genome@, r.0@, r.1@));
    }
    let result: Result<(Vec<i32>, Vec<i32>), OperatorContractViolation> = Ok(r);
    result
}

} // verus!
