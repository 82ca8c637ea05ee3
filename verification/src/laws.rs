//! Laws of the recogniser: what holds of its functions on every input.

use vstd::prelude::*;
use crate::capture::CaptureSession;
use crate::epsilon::{Epsilon, lemma_offset_count_increases, offset_count};
use crate::geometry::{Point, sq_dist};
use crate::normalize::{
    NORMALIZED_EXTENT,
    axis,
    extent,
    lemma_max_is,
    lemma_min_is,
    normalized,
    scaled,
    scaled_coord,
};
use crate::recognizer::canonical;
use crate::resample::{
    all_samples,
    lemma_pointless_strokes_give_nothing,
    path_length,
    point_at,
    resampled,
    samples,
    stroke_length,
};
use crate::matcher::{
    elastic_distance,
    greedy_cost,
    lemma_nearest_exists,
    nearest_index,
    offset_cost,
    without,
};

verus! {

/// Two points at distance zero are the same point.
pub proof fn lemma_sq_dist_zero(p: Point, q: Point)
    ensures
        sq_dist(p, q) == 0 <==> p == q,
{
    let dx: int = p.x - q.x;
    let dy: int = p.y - q.y;
    assert(dx * dx >= 0 && (dx * dx == 0 <==> dx == 0)) by (nonlinear_arith);
    assert(dy * dy >= 0 && (dy * dy == 0 <==> dy == 0)) by (nonlinear_arith);
}

/// Removing a point from a pool removes one occurrence of it from what the
/// pool holds.
pub proof fn lemma_without_holds(pool: Seq<Point>, j: int)
    requires
        0 <= j < pool.len(),
    ensures
        without(pool, j).to_multiset() == pool.to_multiset().remove(pool[j]),
        without(pool, j).len() == pool.len() - 1,
{
    let last: int = pool.len() - 1;
    let moved = pool.update(j, pool[last]);
    assert(without(pool, j) =~= moved.remove(last));
    vstd::seq_lib::to_multiset_remove(moved, last);
    vstd::seq_lib::to_multiset_update(pool, j, pool[last]);
    vstd::seq_lib::to_multiset_contains(pool, pool[j]);
    vstd::seq_lib::to_multiset_contains(pool, pool[last]);
    assert(pool.contains(pool[j]));
    assert(pool.contains(pool[last]));
    assert(pool.to_multiset().insert(pool[last]).remove(pool[j]).remove(pool[last])
        =~= pool.to_multiset().remove(pool[j]));
}

/// A pass from a sequence onto a pool that holds exactly the points the pass
/// has still to read costs nothing.
pub proof fn lemma_pass_onto_itself(t: Seq<Point>, rank: nat, pool: Seq<Point>, n: nat)
    requires
        rank <= t.len(),
        pool.to_multiset() == t.skip(rank as int).to_multiset(),
    ensures
        greedy_cost(t, 0, rank, pool, n) == 0,
    decreases t.len() - rank,
{
    if rank < t.len() {
        let rest = t.skip(rank as int);
        vstd::seq_lib::to_multiset_len(pool);
        vstd::seq_lib::to_multiset_len(rest);
        vstd::arithmetic::div_mod::lemma_small_mod(rank, t.len());
        let p = t[rank as int];
        assert(rest[0] == p);
        assert(rest.contains(p));
        vstd::seq_lib::to_multiset_contains(rest, p);
        vstd::seq_lib::to_multiset_contains(pool, p);
        let at = choose|k: int| 0 <= k < pool.len() && pool[k] == p;
        lemma_sq_dist_zero(p, pool[at]);
        lemma_nearest_exists(p, pool);
        let j = nearest_index(p, pool);
        assert(sq_dist(p, pool[j]) <= sq_dist(p, pool[at]));
        lemma_sq_dist_zero(p, pool[j]);
        lemma_without_holds(pool, j);
        assert(rest.remove(0) =~= t.skip(rank as int + 1));
        vstd::seq_lib::to_multiset_remove(rest, 0);
        lemma_pass_onto_itself(t, rank + 1, without(pool, j), n);
        assert(((n - rank) as nat) * 0 == 0) by (nonlinear_arith);
    }
}

/// The distance is the cost of one of the offsets tried, and no offset tried
/// costs less.
pub proof fn law_distance_is_cheapest_offset(a: Seq<Point>, b: Seq<Point>, starts: nat, n: nat)
    ensures
        forall|s: nat|
            s < starts || s == 0 ==> elastic_distance(a, b, starts, n) <= #[trigger] offset_cost(
                a,
                b,
                s,
                n,
            ),
        exists|s: nat|
            (s < starts || s == 0) && elastic_distance(a, b, starts, n) == #[trigger] offset_cost(
                a,
                b,
                s,
                n,
            ),
    decreases starts,
{
    if starts <= 1 {
        assert(elastic_distance(a, b, starts, n) == offset_cost(a, b, 0, n));
    } else {
        let fewer: nat = (starts - 1) as nat;
        law_distance_is_cheapest_offset(a, b, fewer, n);
        let s = choose|s: nat|
            (s < fewer || s == 0) && elastic_distance(a, b, fewer, n) == #[trigger] offset_cost(
                a,
                b,
                s,
                n,
            );
        if offset_cost(a, b, fewer, n) < elastic_distance(a, b, fewer, n) {
            assert(elastic_distance(a, b, starts, n) == offset_cost(a, b, fewer, n));
        } else {
            assert(elastic_distance(a, b, starts, n) == offset_cost(a, b, s, n));
        }
    }
}

/// Trying more offsets never gives a greater distance.
pub proof fn law_more_offsets_never_worse(
    a: Seq<Point>,
    b: Seq<Point>,
    fewer: nat,
    more: nat,
    n: nat,
)
    requires
        fewer <= more,
    ensures
        elastic_distance(a, b, more, n) <= elastic_distance(a, b, fewer, n),
    decreases more,
{
    if fewer < more && more > 1 {
        law_more_offsets_never_worse(a, b, fewer, (more - 1) as nat, n);
    }
}

/// A greater exponent never gives a greater distance: it only adds offsets
/// to those tried.
pub proof fn law_greater_epsilon_never_worse(
    a: Seq<Point>,
    b: Seq<Point>,
    n: nat,
    lesser: Epsilon,
    greater: Epsilon,
)
    requires
        n >= 1,
        lesser.is_valid(),
        greater.is_valid(),
        lesser.at_most(greater),
    ensures
        elastic_distance(a, b, offset_count(n, greater), n) <= elastic_distance(
            a,
            b,
            offset_count(n, lesser),
            n,
        ),
{
    lemma_offset_count_increases(n, lesser, greater);
    law_more_offsets_never_worse(a, b, offset_count(n, lesser), offset_count(n, greater), n);
}

/// The distance does not depend on the order of its two sequences.
pub proof fn law_distance_is_symmetric(a: Seq<Point>, b: Seq<Point>, starts: nat, n: nat)
    ensures
        elastic_distance(a, b, starts, n) == elastic_distance(b, a, starts, n),
    decreases starts,
{
    if starts > 1 {
        law_distance_is_symmetric(a, b, (starts - 1) as nat, n);
    }
}

/// The distance from a sequence to itself is zero.
pub proof fn law_self_distance_is_zero(t: Seq<Point>, starts: nat, n: nat)
    ensures
        elastic_distance(t, t, starts, n) == 0,
{
    assert(t.skip(0) =~= t);
    lemma_pass_onto_itself(t, 0, t, n);
    assert(offset_cost(t, t, 0, n) == 0);
    law_distance_is_cheapest_offset(t, t, starts, n);
}

/// Adding `d` to every value of a sequence adds `d` to its minimum and to its
/// maximum.
pub proof fn lemma_range_of_shifted(v: Seq<int>, w: Seq<int>, d: int)
    requires
        v.len() > 0,
        w.len() == v.len(),
        forall|i: int| 0 <= i < v.len() ==> #[trigger] w[i] == v[i] + d,
    ensures
        w.min() == v.min() + d,
        w.max() == v.max() + d,
{
    v.min_ensures();
    v.max_ensures();
    let low = choose|k: int| 0 <= k < v.len() && v[k] == v.min();
    let high = choose|k: int| 0 <= k < v.len() && v[k] == v.max();
    assert forall|i: int| 0 <= i < w.len() implies v.min() + d <= w[i] by {
        assert(v.min() <= v[i]);
    }
    assert forall|i: int| 0 <= i < w.len() implies w[i] <= v.max() + d by {
        assert(v[i] <= v.max());
    }
    lemma_min_is(w, v.min() + d, low);
    lemma_max_is(w, v.max() + d, high);
}

/// Multiplying every value of a sequence by a positive `k` multiplies its
/// minimum and its maximum by `k`.
pub proof fn lemma_range_of_multiplied(v: Seq<int>, w: Seq<int>, k: int)
    requires
        k > 0,
        v.len() > 0,
        w.len() == v.len(),
        forall|i: int| 0 <= i < v.len() ==> #[trigger] w[i] == k * v[i],
    ensures
        w.min() == k * v.min(),
        w.max() == k * v.max(),
{
    v.min_ensures();
    v.max_ensures();
    let low = choose|j: int| 0 <= j < v.len() && v[j] == v.min();
    let high = choose|j: int| 0 <= j < v.len() && v[j] == v.max();
    let lo: int = v.min();
    let hi: int = v.max();
    assert forall|i: int| 0 <= i < w.len() implies k * lo <= w[i] by {
        let x: int = v[i];
        assert(lo <= x);
        assert(k * lo <= k * x) by (nonlinear_arith)
            requires
                k > 0,
                lo <= x,
        ;
    }
    assert forall|i: int| 0 <= i < w.len() implies w[i] <= k * hi by {
        let x: int = v[i];
        assert(x <= hi);
        assert(k * x <= k * hi) by (nonlinear_arith)
            requires
                k > 0,
                x <= hi,
        ;
    }
    lemma_min_is(w, k * lo, low);
    lemma_max_is(w, k * hi, high);
}

/// A coordinate scales to the same value when it, the lowest coordinate and
/// the extent are all multiplied by a positive `k`.
pub proof fn lemma_scaled_coord_of_multiplied(c: int, low: int, extent: int, k: int)
    requires
        k > 0,
        low <= c,
        0 <= extent,
    ensures
        scaled_coord(k * c, k * low, k * extent) == scaled_coord(c, low, extent),
{
    let e: int = NORMALIZED_EXTENT as int;
    if extent > 0 {
        let a: int = (c - low) * e;
        assert(a >= 0) by (nonlinear_arith)
            requires
                a == (c - low) * e,
                c - low >= 0,
                e >= 0,
        ;
        assert((k * c - k * low) * e == k * a) by (nonlinear_arith)
            requires
                a == (c - low) * e,
        ;
        vstd::arithmetic::div_mod::lemma_div_multiples_vanish_quotient(k, a, extent);
    } else {
        assert(k * extent == 0) by (nonlinear_arith)
            requires
                extent == 0,
        ;
    }
}

/// A shape and the same shape moved by `(dx, dy)` normalise to the same
/// sequence.
pub proof fn law_translation_invariance(s: Seq<Point>, t: Seq<Point>, dx: int, dy: int)
    requires
        t.len() == s.len(),
        forall|i: int|
            0 <= i < s.len() ==> (#[trigger] t[i]).x == s[i].x + dx && t[i].y == s[i].y + dy,
    ensures
        normalized(t) == normalized(s),
{
    if s.len() > 0 {
        assert forall|i: int| 0 <= i < s.len() implies #[trigger] axis(t, true)[i] == axis(
            s,
            true,
        )[i] + dx by {
            assert(t[i].x == s[i].x + dx);
        }
        assert forall|i: int| 0 <= i < s.len() implies #[trigger] axis(t, false)[i] == axis(
            s,
            false,
        )[i] + dy by {
            assert(t[i].y == s[i].y + dy);
        }
        lemma_range_of_shifted(axis(s, true), axis(t, true), dx);
        lemma_range_of_shifted(axis(s, false), axis(t, false), dy);
        assert(extent(t) == extent(s));
        assert forall|i: int| 0 <= i < s.len() implies scaled(t)[i] == scaled(s)[i] by {
            assert(t[i].x == s[i].x + dx);
            assert(t[i].y == s[i].y + dy);
        }
    }
    assert(scaled(t) =~= scaled(s));
}

/// A shape and the same shape enlarged by a positive whole factor `k`
/// normalise to the same sequence.
pub proof fn law_scale_invariance(s: Seq<Point>, t: Seq<Point>, k: int)
    requires
        k > 0,
        t.len() == s.len(),
        forall|i: int|
            0 <= i < s.len() ==> (#[trigger] t[i]).x == k * s[i].x && t[i].y == k * s[i].y,
    ensures
        normalized(t) == normalized(s),
{
    if s.len() > 0 {
        assert forall|i: int| 0 <= i < s.len() implies #[trigger] axis(t, true)[i] == k * axis(
            s,
            true,
        )[i] by {
            assert(t[i].x == k * s[i].x);
        }
        assert forall|i: int| 0 <= i < s.len() implies #[trigger] axis(t, false)[i] == k * axis(
            s,
            false,
        )[i] by {
            assert(t[i].y == k * s[i].y);
        }
        lemma_range_of_multiplied(axis(s, true), axis(t, true), k);
        lemma_range_of_multiplied(axis(s, false), axis(t, false), k);
        let xs = axis(s, true);
        let ys = axis(s, false);
        xs.min_ensures();
        xs.max_ensures();
        ys.min_ensures();
        ys.max_ensures();
        let width: int = xs.max() - xs.min();
        let height: int = ys.max() - ys.min();
        assert(xs.min() <= xs[0] <= xs.max());
        assert(ys.min() <= ys[0] <= ys.max());
        assert(k * xs.max() - k * xs.min() == k * width) by (nonlinear_arith)
            requires
                width == xs.max() - xs.min(),
        ;
        assert(k * ys.max() - k * ys.min() == k * height) by (nonlinear_arith)
            requires
                height == ys.max() - ys.min(),
        ;
        assert((width >= height) <==> (k * width >= k * height)) by (nonlinear_arith)
            requires
                k > 0,
        ;
        assert(extent(t) == k * extent(s));
        assert forall|i: int| 0 <= i < s.len() implies scaled(t)[i] == scaled(s)[i] by {
            assert(t[i].x == k * s[i].x);
            assert(t[i].y == k * s[i].y);
            assert(xs.min() <= xs[i]);
            assert(ys.min() <= ys[i]);
            lemma_scaled_coord_of_multiplied(s[i].x as int, xs.min(), extent(s), k);
            lemma_scaled_coord_of_multiplied(s[i].y as int, ys.min(), extent(s), k);
        }
    }
    assert(scaled(t) =~= scaled(s));
}

/// The distance between the normal forms of a shape and of the same shape
/// moved is zero.
pub proof fn law_moved_shape_matches(
    s: Seq<Point>,
    t: Seq<Point>,
    dx: int,
    dy: int,
    starts: nat,
    n: nat,
)
    requires
        t.len() == s.len(),
        forall|i: int|
            0 <= i < s.len() ==> (#[trigger] t[i]).x == s[i].x + dx && t[i].y == s[i].y + dy,
    ensures
        elastic_distance(normalized(s), normalized(t), starts, n) == 0,
{
    law_translation_invariance(s, t, dx, dy);
    law_self_distance_is_zero(normalized(s), starts, n);
}

/// The distance between the normal forms of a shape and of the same shape
/// enlarged by a positive whole factor is zero.
pub proof fn law_enlarged_shape_matches(s: Seq<Point>, t: Seq<Point>, k: int, starts: nat, n: nat)
    requires
        k > 0,
        t.len() == s.len(),
        forall|i: int|
            0 <= i < s.len() ==> (#[trigger] t[i]).x == k * s[i].x && t[i].y == k * s[i].y,
    ensures
        elastic_distance(normalized(s), normalized(t), starts, n) == 0,
{
    law_scale_invariance(s, t, k);
    law_self_distance_is_zero(normalized(s), starts, n);
}

/// A candidate none of whose strokes has two points has no shape: its
/// canonical form is empty, whatever length is claimed for it.
pub proof fn law_pointless_candidate_has_no_shape(strokes: Seq<Seq<Point>>, total: nat, n: nat)
    requires
        forall|i: int| 0 <= i < strokes.len() ==> (#[trigger] strokes[i]).len() < 2,
    ensures
        canonical(strokes, total, n).len() == 0,
{
    lemma_pointless_strokes_give_nothing(strokes, total, n);
}

/// Resampling never yields more than `n` points, and neither does the
/// canonical form.
pub proof fn law_canonical_form_is_bounded(strokes: Seq<Seq<Point>>, total: nat, n: nat)
    ensures
        resampled(strokes, total, n).len() <= n,
        canonical(strokes, total, n).len() <= n,
{
}

/// The samples of a stroke, a spacing apart, reach past its end: there are
/// more of them than spacings fit into the stroke.
pub proof fn lemma_samples_cover_stroke(stroke: Seq<Point>, total: nat, n: nat)
    requires
        total > 0,
    ensures
        samples(stroke, total, n).len() * total >= n * stroke_length(stroke),
        stroke.len() >= 2 ==> samples(stroke, total, n).len() * total > n * stroke_length(stroke),
{
    if stroke.len() >= 2 {
        let whole: int = (n * stroke_length(stroke)) as int;
        let t: int = total as int;
        vstd::arithmetic::div_mod::lemma_fundamental_div_mod(whole, t);
        vstd::arithmetic::div_mod::lemma_mod_bound(whole, t);
        vstd::arithmetic::div_mod::lemma_div_pos_is_pos(whole, t);
        let q: int = whole / t;
        assert((q + 1) * t == t * q + t) by (nonlinear_arith);
        assert(samples(stroke, total, n).len() == q + 1);
    } else {
        assert(n * stroke_length(stroke) == 0) by (nonlinear_arith)
            requires
                stroke_length(stroke) == 0,
        ;
        assert(samples(stroke, total, n).len() * total == 0) by (nonlinear_arith)
            requires
                samples(stroke, total, n).len() == 0,
        ;
    }
}

/// The samples of a path reach past its end: there are more of them than
/// spacings fit into the path, if the path has any length.
pub proof fn lemma_samples_cover_path(strokes: Seq<Seq<Point>>, total: nat, n: nat)
    requires
        total > 0,
    ensures
        all_samples(strokes, total, n).len() * total >= n * path_length(strokes),
        path_length(strokes) > 0 ==> all_samples(strokes, total, n).len() * total > n
            * path_length(strokes),
    decreases strokes.len(),
{
    if strokes.len() > 0 {
        let front = strokes.drop_last();
        let last = strokes.last();
        lemma_samples_cover_path(front, total, n);
        lemma_samples_cover_stroke(last, total, n);
        let a: int = all_samples(front, total, n).len() as int;
        let b: int = samples(last, total, n).len() as int;
        let la: int = path_length(front) as int;
        let lb: int = stroke_length(last) as int;
        assert((a + b) * total == a * total + b * total) by (nonlinear_arith);
        assert(n * (la + lb) == n * la + n * lb) by (nonlinear_arith);
        assert(all_samples(strokes, total, n).len() == a + b);
        assert(path_length(strokes) == la + lb);
    } else {
        assert(n * path_length(strokes) == 0) by (nonlinear_arith)
            requires
                path_length(strokes) == 0,
        ;
        assert(all_samples(strokes, total, n).len() * total == 0) by (nonlinear_arith)
            requires
                all_samples(strokes, total, n).len() == 0,
        ;
    }
}

/// A path of some length, resampled with its own length as the total, is
/// fully sampled: it yields exactly `n` points.
pub proof fn law_path_is_fully_sampled(strokes: Seq<Seq<Point>>, n: nat)
    requires
        path_length(strokes) > 0,
    ensures
        resampled(strokes, path_length(strokes), n).len() == n,
{
    let total = path_length(strokes);
    lemma_samples_cover_path(strokes, total, n);
    let count: int = all_samples(strokes, total, n).len() as int;
    if count <= n {
        assert(count * total <= n * total) by (nonlinear_arith)
            requires
                count <= n,
                total >= 0,
        ;
    }
}

/// What a session has captured, once its strokes are ended and if it has any
/// length, is fully sampled with the running length of the session as the
/// total: it yields exactly `n` points.
pub proof fn law_captured_candidate_is_fully_sampled(session: CaptureSession, n: nat)
    requires
        session.wf(),
        !session.is_open(),
        session.length() > 0,
    ensures
        resampled(session.strokes(), session.length(), n).len() == n,
{
    assert(stroke_length(session.current()) == 0);
    law_path_is_fully_sampled(session.strokes(), n);
}

/// A stroke of some length, resampled with its own length as the total, is
/// fully sampled: it yields exactly `n` points.
pub proof fn law_stroke_is_fully_sampled(stroke: Seq<Point>, n: nat)
    requires
        stroke.len() >= 2,
        stroke_length(stroke) > 0,
        n >= 1,
    ensures
        resampled(seq![stroke], stroke_length(stroke), n).len() == n,
{
    let strokes = seq![stroke];
    assert(strokes.drop_last() =~= Seq::<Seq<Point>>::empty());
    assert(strokes.last() == stroke);
    assert(path_length(strokes.drop_last()) == 0);
    assert(path_length(strokes) == stroke_length(stroke));
    law_path_is_fully_sampled(strokes, n);
}

/// The samples of a stroke stand a spacing apart: resampled with its own
/// length as the total, its `k`-th point is the point of the stroke that lies
/// `k` spacings along it from its start.
pub proof fn law_samples_are_evenly_spaced(stroke: Seq<Point>, n: nat, k: int)
    requires
        stroke.len() >= 2,
        stroke_length(stroke) > 0,
        0 <= k < n,
    ensures
        resampled(seq![stroke], stroke_length(stroke), n)[k] == point_at(
            stroke,
            (k * stroke_length(stroke)) as nat,
            n,
        ),
{
    let total = stroke_length(stroke);
    let strokes = seq![stroke];
    law_stroke_is_fully_sampled(stroke, n);
    assert(strokes.drop_last() =~= Seq::<Seq<Point>>::empty());
    assert(strokes.last() == stroke);
    assert(all_samples(strokes.drop_last(), total, n) =~= Seq::<Point>::empty());
    assert(all_samples(strokes, total, n) =~= samples(stroke, total, n));
    lemma_samples_cover_stroke(stroke, total, n);
    let count: int = samples(stroke, total, n).len() as int;
    if count <= n {
        assert(count * total <= n * total) by (nonlinear_arith)
            requires
                count <= n,
                total >= 0,
        ;
    }
}

} // verus!
