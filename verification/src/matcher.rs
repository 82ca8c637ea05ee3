//! The greedy elastic distance between two point sequences.
//!
//! One pass walks the points of a source sequence in order, from a starting
//! offset and wrapping round, and pairs each with the nearest point still left
//! in a pool that starts as the other sequence. The pair made at rank `r`
//! costs `(n - r)` times its squared distance, so early pairs weigh most. An
//! offset costs the cheaper of the two passes, one in each direction, and the
//! distance is the cost of the cheapest offset tried.
//!
//! Costs are `n` times what weights of `1 - r / n` would give, which keeps them
//! whole and leaves every comparison between them unchanged. One pass takes
//! time quadratic in the number of points; trying `starts` offsets in both
//! directions multiplies that by `2 * starts`.

use vstd::prelude::*;
use crate::geometry::{Point, distance_squared, lemma_sq_dist_bound, sq_dist};

verus! {

/// The largest number of points per sequence for which every cost fits in
/// 128 bits.
pub const MAX_POINTS: usize = 0x7fff_ffff;

/// The weight of the pair made at rank `rank` among `n`.
pub open spec fn weight(n: nat, rank: nat) -> nat {
    (n - rank) as nat
}

/// `j` is the index of the first point of `pool` that is nearest to `p`.
pub open spec fn is_nearest(p: Point, pool: Seq<Point>, j: int) -> bool {
    &&& 0 <= j < pool.len()
    &&& forall|k: int| 0 <= k < pool.len() ==> sq_dist(p, pool[j]) <= sq_dist(p, #[trigger] pool[k])
    &&& forall|k: int| 0 <= k < j ==> sq_dist(p, pool[j]) < sq_dist(p, #[trigger] pool[k])
}

/// The index of the first point of `pool` that is nearest to `p`.
pub open spec fn nearest_index(p: Point, pool: Seq<Point>) -> int {
    choose|j: int| is_nearest(p, pool, j)
}

/// `pool` without the point at `j`, the last point moved into its place.
pub open spec fn without(pool: Seq<Point>, j: int) -> Seq<Point> {
    pool.update(j, pool.last()).drop_last()
}

/// The cost of pairing the points of `src` from rank `rank` on, taken from
/// offset `start` and wrapping round, each with the nearest point left in
/// `pool`. The pass ends when either runs out.
pub open spec fn greedy_cost(src: Seq<Point>, start: nat, rank: nat, pool: Seq<Point>, n: nat) -> nat
    decreases src.len() - rank,
{
    if rank >= src.len() || pool.len() == 0 {
        0
    } else {
        let p = src[((start + rank) % src.len()) as int];
        let j = nearest_index(p, pool);
        weight(n, rank) * sq_dist(p, pool[j]) + greedy_cost(
            src,
            start,
            rank + 1,
            without(pool, j),
            n,
        )
    }
}

/// The cost of offset `start`: the cheaper of the pass from `a` onto `b` and
/// the pass from `b` onto `a`.
pub open spec fn offset_cost(a: Seq<Point>, b: Seq<Point>, start: nat, n: nat) -> nat {
    let forward = greedy_cost(a, start, 0, b, n);
    let backward = greedy_cost(b, start, 0, a, n);
    if forward <= backward {
        forward
    } else {
        backward
    }
}

/// The cost of the cheapest of the offsets below `starts`; with no offset to
/// try, that of offset zero.
pub open spec fn elastic_distance(a: Seq<Point>, b: Seq<Point>, starts: nat, n: nat) -> nat
    decreases starts,
{
    if starts <= 1 {
        offset_cost(a, b, 0, n)
    } else {
        let rest = elastic_distance(a, b, (starts - 1) as nat, n);
        let last = offset_cost(a, b, (starts - 1) as nat, n);
        if last < rest {
            last
        } else {
            rest
        }
    }
}

/// A pool that is not empty has a first nearest point.
pub proof fn lemma_nearest_exists(p: Point, pool: Seq<Point>)
    requires
        pool.len() > 0,
    ensures
        is_nearest(p, pool, nearest_index(p, pool)),
    decreases pool.len(),
{
    if pool.len() == 1 {
        assert(is_nearest(p, pool, 0));
    } else {
        let front = pool.drop_last();
        lemma_nearest_exists(p, front);
        let j = nearest_index(p, front);
        let last: int = pool.len() - 1;
        assert(forall|k: int| 0 <= k < front.len() ==> front[k] == pool[k]);
        if sq_dist(p, pool[last]) < sq_dist(p, pool[j]) {
            assert forall|k: int| 0 <= k < pool.len() implies sq_dist(p, pool[last]) <= sq_dist(
                p,
                #[trigger] pool[k],
            ) by {
                if k < last {
                    assert(sq_dist(p, front[j]) <= sq_dist(p, front[k]));
                }
            }
            assert forall|k: int| 0 <= k < last implies sq_dist(p, pool[last]) < sq_dist(
                p,
                #[trigger] pool[k],
            ) by {
                assert(sq_dist(p, front[j]) <= sq_dist(p, front[k]));
            }
            assert(is_nearest(p, pool, last));
        } else {
            assert forall|k: int| 0 <= k < pool.len() implies sq_dist(p, pool[j]) <= sq_dist(
                p,
                #[trigger] pool[k],
            ) by {
                if k < last {
                    assert(sq_dist(p, front[j]) <= sq_dist(p, front[k]));
                }
            }
            assert forall|k: int| 0 <= k < j implies sq_dist(p, pool[j]) < sq_dist(
                p,
                #[trigger] pool[k],
            ) by {
                assert(sq_dist(p, front[j]) < sq_dist(p, front[k]));
            }
            assert(is_nearest(p, pool, j));
        }
    }
}

/// The first nearest point is unique.
pub proof fn lemma_nearest_is(p: Point, pool: Seq<Point>, j: int)
    requires
        is_nearest(p, pool, j),
    ensures
        nearest_index(p, pool) == j,
{
    let i = nearest_index(p, pool);
    lemma_nearest_exists(p, pool);
    if i < j {
        assert(sq_dist(p, pool[j]) < sq_dist(p, pool[i]));
        assert(sq_dist(p, pool[i]) <= sq_dist(p, pool[j]));
    } else if j < i {
        assert(sq_dist(p, pool[i]) < sq_dist(p, pool[j]));
        assert(sq_dist(p, pool[j]) <= sq_dist(p, pool[i]));
    }
}

/// `weights` holds the weight of each rank among `weights.len()`.
pub open spec fn are_weights(weights: Seq<u32>) -> bool {
    &&& weights.len() <= MAX_POINTS
    &&& forall|i: int|
        0 <= i < weights.len() ==> #[trigger] weights[i] == weight(weights.len(), i as nat)
}

/// Reducing the offset before the rank is added does not change the index a
/// pass reads.
proof fn lemma_wrapped_index(start: int, rank: int, len: int)
    requires
        0 <= start,
        0 <= rank < len,
    ensures
        (start + rank) % len == (if start % len + rank >= len {
            start % len + rank - len
        } else {
            start % len + rank
        }),
{
    let base: int = start % len;
    vstd::arithmetic::div_mod::lemma_mod_bound(start, len);
    vstd::arithmetic::div_mod::lemma_fundamental_div_mod(start, len);
    let q: int = start / len;
    assert(start + rank == len * q + (base + rank));
    assert(len * q == q * len) by (nonlinear_arith);
    if base + rank >= len {
        assert((q + 1) * len == q * len + len) by (nonlinear_arith);
        vstd::arithmetic::div_mod::lemma_fundamental_div_mod_converse(
            start + rank,
            len,
            q + 1,
            base + rank - len,
        );
    } else {
        vstd::arithmetic::div_mod::lemma_fundamental_div_mod_converse(
            start + rank,
            len,
            q,
            base + rank,
        );
    }
}

/// Computes the weights of the ranks among `n`: rank `i` weighs `n - i`.
pub fn get_weights(n: usize) -> (weights: Vec<u32>)
    requires
        n <= MAX_POINTS,
    ensures
        weights.len() == n,
        are_weights(weights@),
{
    let mut weights: Vec<u32> = Vec::new();
    let mut i: usize = 0;
    while i < n
        invariant
            i <= n <= MAX_POINTS,
            weights.len() == i,
            forall|k: int| 0 <= k < i ==> #[trigger] weights[k] == weight(n as nat, k as nat),
        decreases n - i,
    {
        weights.push((n - i) as u32);
        i = i + 1;
    }
    weights
}

/// Pairs the point of `candidate` at `candidate_index` with the first of the
/// points of `template` nearest to it, removes that point from `template` by
/// moving the last one into its place, and returns the cost of the pair: its
/// squared distance times the weight of `rank`.
pub fn greedy_5_eval_nearest(
    candidate_index: usize,
    rank: usize,
    template: &mut Vec<Point>,
    candidate: &Vec<Point>,
    weights: &Vec<u32>,
) -> (cost: u128)
    requires
        candidate_index < candidate.len(),
        rank < weights.len(),
        old(template).len() > 0,
    ensures
        final(template)@ == without(
            old(template)@,
            nearest_index(candidate[candidate_index as int], old(template)@),
        ),
        cost == weights[rank as int] * sq_dist(
            candidate[candidate_index as int],
            old(template)[nearest_index(candidate[candidate_index as int], old(template)@)],
        ),
{
    let p: Point = candidate[candidate_index];
    let mut nearest: usize = 0;
    let mut nearest_dist: u128 = distance_squared(p, template[0]);
    let mut j: usize = 1;
    while j < template.len()
        invariant
            1 <= j <= template.len(),
            template@ == old(template)@,
            nearest < j,
            nearest_dist == sq_dist(p, template[nearest as int]),
            forall|k: int| 0 <= k < j ==> nearest_dist <= sq_dist(p, #[trigger] template[k]),
            forall|k: int| 0 <= k < nearest ==> nearest_dist < sq_dist(p, #[trigger] template[k]),
        decreases template.len() - j,
    {
        let d: u128 = distance_squared(p, template[j]);
        if d < nearest_dist {
            nearest_dist = d;
            nearest = j;
        }
        j = j + 1;
    }
    proof {
        lemma_nearest_is(p, template@, nearest as int);
        lemma_sq_dist_bound(p, template[nearest as int]);
        assert(weights[rank as int] * nearest_dist < 0x1_0000_0000 * 0x2_0000_0000_0000_0000)
            by (nonlinear_arith)
            requires
                0 <= weights[rank as int] < 0x1_0000_0000,
                0 <= nearest_dist < 0x2_0000_0000_0000_0000,
        ;
    }
    template.swap_remove(nearest);
    (weights[rank] as u128) * nearest_dist
}

/// Copies a point sequence.
fn copy_points(points: &Vec<Point>) -> (copy: Vec<Point>)
    ensures
        copy@ == points@,
{
    let mut copy: Vec<Point> = Vec::new();
    let mut i: usize = 0;
    while i < points.len()
        invariant
            i <= points.len(),
            copy@ == points@.take(i as int),
        decreases points.len() - i,
    {
        copy.push(points[i]);
        assert(points@.take(i + 1) == points@.take(i as int).push(points[i as int]));
        i = i + 1;
    }
    assert(points@.take(points.len() as int) == points@);
    copy
}

/// One pass from `src` onto `pool`: the executable form of `greedy_cost`.
fn greedy_pass(src: &Vec<Point>, start: usize, pool: &Vec<Point>, weights: &Vec<u32>) -> (cost:
    u128)
    requires
        are_weights(weights@),
        src.len() <= weights.len(),
    ensures
        cost == greedy_cost(src@, start as nat, 0, pool@, weights.len() as nat),
{
    let mut left: Vec<Point> = copy_points(pool);
    let mut cost: u128 = 0;
    let mut rank: usize = 0;
    if src.len() == 0 {
        return 0;
    }
    let base: usize = start % src.len();
    while rank < src.len() && left.len() > 0
        invariant
            rank <= src.len() <= weights.len(),
            src.len() > 0,
            base == start % src.len(),
            are_weights(weights@),
            cost <= rank * 0x1_0000_0000_0000_0000_0000_0000,
            cost + greedy_cost(src@, start as nat, rank as nat, left@, weights.len() as nat)
                == greedy_cost(src@, start as nat, 0, pool@, weights.len() as nat),
        decreases src.len() - rank,
    {
        let index: usize = if base + rank >= src.len() {
            base + rank - src.len()
        } else {
            base + rank
        };
        proof {
            lemma_wrapped_index(start as int, rank as int, src.len() as int);
            let p = src[index as int];
            let j = nearest_index(p, left@);
            lemma_sq_dist_bound(p, left[j]);
            lemma_nearest_exists(p, left@);
            assert(weights[rank as int] * sq_dist(p, left[j]) < 0x8000_0000
                * 0x2_0000_0000_0000_0000) by (nonlinear_arith)
                requires
                    0 <= weights[rank as int] < 0x8000_0000,
                    0 <= sq_dist(p, left[j]) < 0x2_0000_0000_0000_0000,
            ;
        }
        let pair: u128 = greedy_5_eval_nearest(index, rank, &mut left, src, weights);
        cost = cost + pair;
        rank = rank + 1;
    }
    cost
}

/// The cost of one offset: the executable form of `offset_cost`.
fn cost_at_offset(a: &Vec<Point>, b: &Vec<Point>, start: usize, weights: &Vec<u32>) -> (cost:
    u128)
    requires
        are_weights(weights@),
        a.len() <= weights.len(),
        b.len() <= weights.len(),
    ensures
        cost == offset_cost(a@, b@, start as nat, weights.len() as nat),
{
    let forward: u128 = greedy_pass(a, start, b, weights);
    let backward: u128 = greedy_pass(b, start, a, weights);
    if forward <= backward {
        forward
    } else {
        backward
    }
}

/// The distance between `a` and `b` under given weights, over the offsets
/// below `starts`.
pub fn weighted_distance(a: &Vec<Point>, b: &Vec<Point>, starts: usize, weights: &Vec<u32>) -> (d:
    u128)
    requires
        are_weights(weights@),
        a.len() <= weights.len(),
        b.len() <= weights.len(),
    ensures
        d == elastic_distance(a@, b@, starts as nat, weights.len() as nat),
{
    let mut best: u128 = cost_at_offset(a, b, 0, weights);
    let mut start: usize = 1;
    while start < starts
        invariant
            1 <= start,
            start == 1 || start <= starts,
            are_weights(weights@),
            a.len() <= weights.len(),
            b.len() <= weights.len(),
            best == elastic_distance(a@, b@, start as nat, weights.len() as nat),
        decreases starts - start,
    {
        let cost: u128 = cost_at_offset(a, b, start, weights);
        if cost < best {
            best = cost;
        }
        start = start + 1;
    }
    assert(starts <= 1 ==> elastic_distance(a@, b@, starts as nat, weights.len() as nat)
        == elastic_distance(a@, b@, 1, weights.len() as nat));
    best
}

/// Computes the greedy elastic distance between `a` and `b`, two sequences of
/// at most `n` points, over the offsets below `starts`. Fewer than one offset
/// counts as one.
pub fn match_distance(a: &Vec<Point>, b: &Vec<Point>, starts: usize, n: usize) -> (d: u128)
    requires
        a.len() <= n,
        b.len() <= n,
        n <= MAX_POINTS,
    ensures
        d == elastic_distance(a@, b@, starts as nat, n as nat),
{
    let weights: Vec<u32> = get_weights(n);
    weighted_distance(a, b, starts, &weights)
}

} // verus!
