//! Resampling of a drawn path to a fixed number of points spaced evenly along
//! its arc length.
//!
//! Lengths are whole: a segment measures the distance between its ends,
//! rounded down, and a stroke the sum of its segments. The spacing between
//! samples is `total / n`, where `total` is the length of the whole path and
//! `n` the number of points wanted. To keep the spacing exact, places along a
//! stroke are counted in `n`-ths of a unit: in that measure a segment of
//! length `seg` is `n * seg` long and the samples stand `total` apart, the
//! `k`-th at `k * total` from the start of its stroke.

use vstd::prelude::*;
use crate::geometry::{Point, dist, distance, lerp, lerp_point};
use crate::matcher::MAX_POINTS;

verus! {

/// The strokes of a candidate as sequences of points.
pub open spec fn strokes_of(candidate: Seq<Vec<Point>>) -> Seq<Seq<Point>> {
    candidate.map_values(|stroke: Vec<Point>| stroke@)
}

/// The length of a stroke: the sum of the distances between its consecutive
/// points.
pub open spec fn stroke_length(stroke: Seq<Point>) -> nat
    decreases stroke.len(),
{
    if stroke.len() < 2 {
        0
    } else {
        stroke_length(stroke.drop_last()) + dist(stroke[stroke.len() - 2], stroke.last())
    }
}

/// The length of a path: the sum of the lengths of its strokes.
pub open spec fn path_length(strokes: Seq<Seq<Point>>) -> nat
    decreases strokes.len(),
{
    if strokes.len() == 0 {
        0
    } else {
        path_length(strokes.drop_last()) + stroke_length(strokes.last())
    }
}

/// The point of `stroke` that lies `place` `n`-ths of a unit along it from
/// its first point, for a place within the stroke: the point of the segment
/// the place falls into that divides it in the ratio of the place, rounded
/// toward the start of the segment. A place on a corner belongs to the
/// segment that ends there.
pub open spec fn point_at(stroke: Seq<Point>, place: nat, n: nat) -> Point
    decreases stroke.len(),
{
    if stroke.len() < 2 {
        stroke[0]
    } else {
        let before = n * stroke_length(stroke.drop_last());
        if place > before {
            lerp_point(
                stroke[stroke.len() - 2],
                stroke.last(),
                place - before,
                (n * dist(stroke[stroke.len() - 2], stroke.last())) as int,
            )
        } else {
            point_at(stroke.drop_last(), place, n)
        }
    }
}

/// The samples of one stroke: its first point and then one point at every
/// spacing along it, as far as the stroke reaches. A stroke of fewer than two
/// points has none.
pub open spec fn samples(stroke: Seq<Point>, total: nat, n: nat) -> Seq<Point> {
    if stroke.len() < 2 {
        Seq::empty()
    } else {
        Seq::new(
            ((n * stroke_length(stroke)) / total + 1) as nat,
            |k: int| point_at(stroke, (k * total) as nat, n),
        )
    }
}

/// The samples of all the strokes, stroke after stroke.
pub open spec fn all_samples(strokes: Seq<Seq<Point>>, total: nat, n: nat) -> Seq<Point>
    decreases strokes.len(),
{
    if strokes.len() == 0 {
        Seq::empty()
    } else {
        all_samples(strokes.drop_last(), total, n) + samples(strokes.last(), total, n)
    }
}

/// The first `n` of `points`, or all of them if they are fewer.
pub open spec fn first_n(points: Seq<Point>, n: nat) -> Seq<Point> {
    if points.len() <= n {
        points
    } else {
        points.take(n as int)
    }
}

/// The path `strokes`, of total length `total`, resampled to at most `n`
/// points: the first `n` of the samples of its strokes.
pub open spec fn resampled(strokes: Seq<Seq<Point>>, total: nat, n: nat) -> Seq<Point> {
    first_n(all_samples(strokes, total, n), n)
}

/// A longer beginning of a stroke is not shorter.
pub proof fn lemma_length_grows(stroke: Seq<Point>, shorter: int, longer: int)
    requires
        0 <= shorter <= longer <= stroke.len(),
    ensures
        stroke_length(stroke.take(shorter)) <= stroke_length(stroke.take(longer)),
    decreases longer - shorter,
{
    if shorter < longer {
        assert(stroke.take(longer).drop_last() =~= stroke.take(longer - 1));
        lemma_length_grows(stroke, shorter, longer - 1);
    }
}

/// One more point adds the length of one more segment.
pub proof fn lemma_length_of_next(stroke: Seq<Point>, i: int)
    requires
        1 <= i < stroke.len(),
    ensures
        stroke_length(stroke.take(i + 1)) == stroke_length(stroke.take(i)) + dist(
            stroke[i - 1],
            stroke[i],
        ),
{
    assert(stroke.take(i + 1).drop_last() =~= stroke.take(i));
}

/// The place zero of a stroke is its first point.
pub proof fn lemma_point_at_start(stroke: Seq<Point>, n: nat)
    requires
        stroke.len() >= 1,
    ensures
        point_at(stroke, 0, n) == stroke[0],
    decreases stroke.len(),
{
    if stroke.len() >= 2 {
        lemma_point_at_start(stroke.drop_last(), n);
    }
}

/// A place within the `i`-th segment of a stroke is found on that segment,
/// however far the stroke goes on after it.
proof fn lemma_point_within(stroke: Seq<Point>, i: int, within: nat, n: nat, upto: int)
    requires
        1 <= i < upto <= stroke.len(),
        0 < within <= n * dist(stroke[i - 1], stroke[i]),
    ensures
        point_at(stroke.take(upto), n * stroke_length(stroke.take(i)) + within, n) == lerp_point(
            stroke[i - 1],
            stroke[i],
            within as int,
            (n * dist(stroke[i - 1], stroke[i])) as int,
        ),
    decreases upto,
{
    let beginning = stroke.take(upto);
    let place: nat = n * stroke_length(stroke.take(i)) + within;
    assert(beginning.drop_last() =~= stroke.take(upto - 1));
    if upto == i + 1 {
        assert(beginning[upto - 2] == stroke[i - 1]);
        assert(beginning.last() == stroke[i]);
    } else {
        lemma_length_grows(stroke, i + 1, upto - 1);
        lemma_length_of_next(stroke, i);
        let far = stroke_length(stroke.take(upto - 1));
        let near = stroke_length(stroke.take(i));
        let seg = dist(stroke[i - 1], stroke[i]);
        assert(n * far >= n * near + n * seg) by (nonlinear_arith)
            requires
                far >= near + seg,
        ;
        lemma_point_within(stroke, i, within, n, upto - 1);
    }
}

/// A place within the `i`-th segment of a stroke is the point that divides
/// the segment in the ratio of the place.
pub proof fn lemma_point_in_segment(stroke: Seq<Point>, i: int, within: nat, n: nat)
    requires
        1 <= i < stroke.len(),
        0 < within <= n * dist(stroke[i - 1], stroke[i]),
    ensures
        point_at(stroke, n * stroke_length(stroke.take(i)) + within, n) == lerp_point(
            stroke[i - 1],
            stroke[i],
            within as int,
            (n * dist(stroke[i - 1], stroke[i])) as int,
        ),
{
    lemma_point_within(stroke, i, within, n, stroke.len() as int);
    assert(stroke.take(stroke.len() as int) =~= stroke);
}

/// Cutting down to `n` before more points are added changes nothing of the
/// first `n`.
pub proof fn lemma_first_n_of_more(points: Seq<Point>, more: Seq<Point>, n: nat)
    ensures
        first_n(first_n(points, n) + more, n) == first_n(points + more, n),
{
    if points.len() > n {
        assert(first_n(points.take(n as int) + more, n) =~= points.take(n as int));
        assert(first_n(points + more, n) =~= points.take(n as int));
    }
}

/// The samples of some strokes and one more are those of the strokes and
/// then those of the one.
pub proof fn lemma_samples_of_next(strokes: Seq<Seq<Point>>, s: int, total: nat, n: nat)
    requires
        0 <= s < strokes.len(),
    ensures
        all_samples(strokes.take(s + 1), total, n) == all_samples(strokes.take(s), total, n)
            + samples(strokes[s], total, n),
{
    assert(strokes.take(s + 1).drop_last() =~= strokes.take(s));
}

/// Strokes of fewer than two points have no samples.
pub proof fn lemma_pointless_strokes_give_nothing(strokes: Seq<Seq<Point>>, total: nat, n: nat)
    requires
        forall|i: int| 0 <= i < strokes.len() ==> (#[trigger] strokes[i]).len() < 2,
    ensures
        all_samples(strokes, total, n).len() == 0,
    decreases strokes.len(),
{
    if strokes.len() > 0 {
        assert(strokes.last().len() < 2);
        lemma_pointless_strokes_give_nothing(strokes.drop_last(), total, n);
    }
}

/// Adds to `out` the samples of one stroke, as far as `n` points go.
fn extend_with_stroke(out: &mut Vec<Point>, stroke: &Vec<Point>, total: u64, n: usize)
    requires
        total > 0,
        n <= MAX_POINTS,
        old(out).len() <= n,
    ensures
        final(out)@ == first_n(old(out)@ + samples(stroke@, total as nat, n as nat), n as nat),
        final(out).len() <= n,
{
    let ghost before = out@;
    let ghost all = samples(stroke@, total as nat, n as nat);
    if stroke.len() < 2 || out.len() >= n {
        assert(first_n(before + all, n as nat) =~= before);
        return ;
    }
    proof {
        lemma_point_at_start(stroke@, n as nat);
        assert(all[0] == stroke[0]);
        assert(stroke@.take(1).drop_last() =~= stroke@.take(0));
    }
    out.push(stroke[0]);
    assert(out@ =~= before + all.take(1));
    let mut carry: u64 = 0;
    let ghost mut emitted: nat = 1;
    let mut i: usize = 1;
    assert(n * stroke_length(stroke@.take(1)) == (emitted - 1) * total + carry) by (nonlinear_arith)
        requires
            stroke_length(stroke@.take(1)) == 0,
            emitted == 1,
            carry == 0,
    ;
    while i < stroke.len()
        invariant
            1 <= i <= stroke.len(),
            stroke.len() >= 2,
            total > 0,
            n <= MAX_POINTS,
            before == old(out)@,
            all == samples(stroke@, total as nat, n as nat),
            out.len() <= n,
            1 <= emitted <= all.len(),
            out@ == before + all.take(emitted as int),
            carry < total,
            n * stroke_length(stroke@.take(i as int)) == (emitted - 1) * total + carry,
        decreases stroke.len() - i,
    {
        if out.len() >= n {
            assert(first_n(before + all, n as nat) =~= out@);
            return ;
        }
        let a: Point = stroke[i - 1];
        let b: Point = stroke[i];
        let seg: u64 = distance(a, b);
        let ghost walked: int = n * stroke_length(stroke@.take(i as int));
        proof {
            assert(n * seg <= 0x7fff_ffff * 0x2_0000_0000) by (nonlinear_arith)
                requires
                    0 <= n <= 0x7fff_ffff,
                    0 <= seg < 0x2_0000_0000,
            ;
            lemma_length_of_next(stroke@, i as int);
            lemma_length_grows(stroke@, i as int + 1, stroke.len() as int);
            assert(stroke@.take(stroke.len() as int) =~= stroke@);
            assert(walked == (emitted - 1) * total + carry);
            assert(walked + (total - carry) == emitted * total) by (nonlinear_arith)
                requires
                    walked == (emitted - 1) * total + carry,
            ;
        }
        let reach: u128 = (n as u128) * (seg as u128);
        let mut next: u128 = (total - carry) as u128;
        proof {
            let here = stroke_length(stroke@.take(i as int));
            let there = stroke_length(stroke@.take(i + 1));
            let whole = stroke_length(stroke@);
            assert(walked + reach <= n * whole) by (nonlinear_arith)
                requires
                    there == here + seg,
                    there <= whole,
                    walked == n * here,
                    reach == n * seg,
            ;
        }
        while next <= reach && out.len() < n
            invariant
                1 <= i < stroke.len(),
                total > 0,
                a == stroke[i - 1],
                b == stroke[i as int],
                seg == dist(a, b),
                reach == n * seg,
                reach < 0x1_0000_0000_0000_0000,
                0 < next <= reach + total,
                before == old(out)@,
                all == samples(stroke@, total as nat, n as nat),
                stroke.len() >= 2,
                out.len() <= n,
                1 <= emitted <= all.len(),
                out@ == before + all.take(emitted as int),
                walked == n * stroke_length(stroke@.take(i as int)),
                walked + next == emitted * total,
                walked + reach <= n * stroke_length(stroke@),
            decreases reach + total - next,
        {
            proof {
                lemma_point_in_segment(stroke@, i as int, next as nat, n as nat);
                let whole: int = (n * stroke_length(stroke@)) as int;
                let k: int = emitted as int;
                assert(k * total <= whole);
                vstd::arithmetic::div_mod::lemma_div_is_ordered(k * total, whole, total as int);
                vstd::arithmetic::div_mod::lemma_div_multiples_vanish(k, total as int);
                assert(total * k == k * total) by (nonlinear_arith);
                assert(k < all.len());
                assert(all[k] == point_at(stroke@, (k * total) as nat, n as nat));
                assert(all.take(k).push(all[k]) =~= all.take(k + 1));
            }
            let sample: Point = lerp(a, b, next as u64, reach);
            out.push(sample);
            proof {
                assert((emitted + 1) * total == emitted * total + total) by (nonlinear_arith);
                emitted = emitted + 1;
            }
            next = next + total as u128;
        }
        if out.len() >= n {
            assert(first_n(before + all, n as nat) =~= out@);
            return ;
        }
        proof {
            let rest: int = reach + total - next;
            assert(n * stroke_length(stroke@.take(i + 1)) == walked + reach) by (nonlinear_arith)
                requires
                    stroke_length(stroke@.take(i + 1)) == stroke_length(stroke@.take(i as int))
                        + seg,
                    walked == n * stroke_length(stroke@.take(i as int)),
                    reach == n * seg,
            ;
            assert(walked + reach == (emitted - 1) * total + rest) by (nonlinear_arith)
                requires
                    walked + next == emitted * total,
                    rest == reach + total - next,
            ;
        }
        carry = (reach + total as u128 - next) as u64;
        i = i + 1;
    }
    proof {
        assert(stroke@.take(stroke.len() as int) =~= stroke@);
        let whole: int = (n * stroke_length(stroke@)) as int;
        assert(whole == total * (emitted - 1) + carry) by (nonlinear_arith)
            requires
                whole == (emitted - 1) * total + carry,
        ;
        vstd::arithmetic::div_mod::lemma_fundamental_div_mod_converse(
            whole,
            total as int,
            emitted - 1,
            carry as int,
        );
        assert(all.take(emitted as int) =~= all);
    }
}

/// Resamples a candidate, whose strokes have the total length `total_length`,
/// to at most `n` points that stand `total_length / n` apart along each
/// stroke.
///
/// Each stroke of two points or more yields its first point and then one
/// sample at every spacing from there, as far as it reaches; every segment
/// counts with the distance between its ends, rounded down, and a sample
/// divides its segment in the exact ratio of its place, rounded toward the
/// start of the segment. A shorter stroke yields nothing. Of the samples of
/// all strokes the first `n` are returned. A stroke resampled with its own
/// length as the total yields `n` points. A path of length zero has no
/// spacing to sample at, and `None` is returned for it.
pub fn resample(candidate: &Vec<Vec<Point>>, total_length: u64, n: usize) -> (r: Option<
    Vec<Point>,
>)
    requires
        n <= MAX_POINTS,
    ensures
        r is None <==> total_length == 0,
        r matches Some(points) ==> points@ == resampled(
            strokes_of(candidate@),
            total_length as nat,
            n as nat,
        ),
        r matches Some(points) ==> points.len() <= n,
{
    if total_length == 0 {
        return None;
    }
    let mut out: Vec<Point> = Vec::new();
    let mut s: usize = 0;
    let ghost strokes = strokes_of(candidate@);
    assert(strokes.take(0) =~= Seq::<Seq<Point>>::empty());
    while s < candidate.len()
        invariant
            s <= candidate.len(),
            total_length > 0,
            n <= MAX_POINTS,
            out.len() <= n,
            strokes == strokes_of(candidate@),
            out@ == first_n(
                all_samples(strokes.take(s as int), total_length as nat, n as nat),
                n as nat,
            ),
        decreases candidate.len() - s,
    {
        proof {
            lemma_samples_of_next(strokes, s as int, total_length as nat, n as nat);
            lemma_first_n_of_more(
                all_samples(strokes.take(s as int), total_length as nat, n as nat),
                samples(strokes[s as int], total_length as nat, n as nat),
                n as nat,
            );
        }
        extend_with_stroke(&mut out, &candidate[s], total_length, n);
        s = s + 1;
    }
    assert(strokes.take(candidate.len() as int) =~= strokes);
    Some(out)
}

} // verus!
