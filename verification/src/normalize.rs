//! Normalisation of a point sequence: a uniform scaling that brings the larger
//! side of its bounding box to `NORMALIZED_EXTENT` units, followed by a
//! translation that puts its centroid at the origin.

use vstd::prelude::*;
use crate::geometry::Point;

verus! {

/// The length, in units, that the larger side of the bounding box has after
/// scaling.
pub const NORMALIZED_EXTENT: i32 = 65536;

/// The coordinates of `s` along one axis: the horizontal one where
/// `horizontal` holds, the vertical one otherwise.
pub open spec fn axis(s: Seq<Point>, horizontal: bool) -> Seq<int> {
    Seq::new(
        s.len(),
        |i: int|
            if horizontal {
                s[i].x as int
            } else {
                s[i].y as int
            },
    )
}

/// The sum of the values of `v`.
pub open spec fn total(v: Seq<int>) -> int
    decreases v.len(),
{
    if v.len() == 0 {
        0
    } else {
        total(v.drop_last()) + v.last()
    }
}

/// The mean of the values of `v`, rounded down; zero for the empty sequence.
pub open spec fn mean(v: Seq<int>) -> int {
    if v.len() == 0 {
        0
    } else {
        total(v) / (v.len() as int)
    }
}

/// The larger side of the bounding box of `s`.
pub open spec fn extent(s: Seq<Point>) -> int {
    let width = axis(s, true).max() - axis(s, true).min();
    let height = axis(s, false).max() - axis(s, false).min();
    if width >= height {
        width
    } else {
        height
    }
}

/// A coordinate `c` of a shape whose lowest coordinate on that axis is `low`
/// and whose bounding box has the larger side `extent`, after scaling. A
/// shape without extent collapses onto zero.
pub open spec fn scaled_coord(c: int, low: int, extent: int) -> int {
    if extent > 0 {
        ((c - low) * NORMALIZED_EXTENT) / extent
    } else {
        0
    }
}

/// The points of `s` scaled uniformly so that the bounding box starts at the
/// origin and its larger side measures `NORMALIZED_EXTENT`.
pub open spec fn scaled(s: Seq<Point>) -> Seq<Point> {
    Seq::new(
        s.len(),
        |i: int|
            Point {
                x: scaled_coord(s[i].x as int, axis(s, true).min(), extent(s)) as i32,
                y: scaled_coord(s[i].y as int, axis(s, false).min(), extent(s)) as i32,
            },
    )
}

/// The centroid of `s`, each coordinate rounded down; the origin for the
/// empty sequence.
pub open spec fn centroid(s: Seq<Point>) -> Point {
    Point { x: mean(axis(s, true)) as i32, y: mean(axis(s, false)) as i32 }
}

/// The points of `s` translated so that the centroid lies at the origin.
pub open spec fn centered(s: Seq<Point>) -> Seq<Point> {
    Seq::new(
        s.len(),
        |i: int|
            Point {
                x: (s[i].x - centroid(s).x) as i32,
                y: (s[i].y - centroid(s).y) as i32,
            },
    )
}

/// The points of `s` scaled, then centered.
pub open spec fn normalized(s: Seq<Point>) -> Seq<Point> {
    centered(scaled(s))
}

/// A value that occurs in `v` and is below no other is its minimum.
pub proof fn lemma_min_is(v: Seq<int>, m: int, at: int)
    requires
        0 <= at < v.len(),
        v[at] == m,
        forall|i: int| 0 <= i < v.len() ==> m <= v[i],
    ensures
        v.min() == m,
{
    v.min_ensures();
    let k = choose|k: int| 0 <= k < v.len() && v[k] == v.min();
    assert(m <= v[k]);
    assert(v.min() <= v[at]);
}

/// A value that occurs in `v` and is above no other is its maximum.
pub proof fn lemma_max_is(v: Seq<int>, m: int, at: int)
    requires
        0 <= at < v.len(),
        v[at] == m,
        forall|i: int| 0 <= i < v.len() ==> v[i] <= m,
    ensures
        v.max() == m,
{
    v.max_ensures();
    let k = choose|k: int| 0 <= k < v.len() && v[k] == v.max();
    assert(v[k] <= m);
    assert(v[at] <= v.max());
}

/// The sum of values that all lie between `lo` and `hi` lies between
/// `len * lo` and `len * hi`.
pub proof fn lemma_total_bounds(v: Seq<int>, lo: int, hi: int)
    requires
        forall|i: int| 0 <= i < v.len() ==> lo <= #[trigger] v[i] && v[i] <= hi,
    ensures
        v.len() * lo <= total(v) <= v.len() * hi,
    decreases v.len(),
{
    if v.len() > 0 {
        lemma_total_bounds(v.drop_last(), lo, hi);
        let k: int = v.len() - 1;
        assert(v.drop_last().len() == k);
        assert(lo <= v[k] <= hi);
        assert((k + 1) * lo == k * lo + lo) by (nonlinear_arith);
        assert((k + 1) * hi == k * hi + hi) by (nonlinear_arith);
    }
}

/// The mean of values that all lie between `lo` and `hi` lies between them.
pub proof fn lemma_mean_bounds(v: Seq<int>, lo: int, hi: int)
    requires
        v.len() > 0,
        forall|i: int| 0 <= i < v.len() ==> lo <= #[trigger] v[i] && v[i] <= hi,
    ensures
        lo <= mean(v) <= hi,
{
    let n: int = v.len() as int;
    lemma_total_bounds(v, lo, hi);
    vstd::arithmetic::div_mod::lemma_div_is_ordered(n * lo, total(v), n);
    vstd::arithmetic::div_mod::lemma_div_is_ordered(total(v), n * hi, n);
    vstd::arithmetic::div_mod::lemma_div_multiples_vanish(lo, n);
    vstd::arithmetic::div_mod::lemma_div_multiples_vanish(hi, n);
}

/// A scaled coordinate lies between zero and `NORMALIZED_EXTENT`.
pub proof fn lemma_scaled_coord_bounds(c: int, low: int, extent: int)
    requires
        low <= c <= low + extent,
    ensures
        0 <= scaled_coord(c, low, extent) <= NORMALIZED_EXTENT,
{
    if extent > 0 {
        let e: int = NORMALIZED_EXTENT as int;
        assert(0 <= (c - low) * e <= extent * e) by (nonlinear_arith)
            requires
                0 <= c - low <= extent,
                e >= 0,
        ;
        vstd::arithmetic::div_mod::lemma_div_is_ordered(0, (c - low) * e, extent);
        vstd::arithmetic::div_mod::lemma_div_is_ordered((c - low) * e, extent * e, extent);
        vstd::arithmetic::div_mod::lemma_div_multiples_vanish(e, extent);
    }
}

/// The quotient of a negative number rounds away from zero when it is taken
/// downward.
proof fn lemma_floor_of_negative(a: int, b: int, q: int)
    requires
        a < 0,
        b > 0,
        q == (-a + b - 1) / b,
    ensures
        a / b == -q,
{
    let m: int = -a + b - 1;
    vstd::arithmetic::div_mod::lemma_fundamental_div_mod(m, b);
    vstd::arithmetic::div_mod::lemma_mod_bound(m, b);
    let r: int = m % b;
    assert(m == b * q + r);
    assert(b * q == q * b) by (nonlinear_arith);
    assert((-q) * b == -(q * b)) by (nonlinear_arith);
    vstd::arithmetic::div_mod::lemma_fundamental_div_mod_converse(a, b, -q, b - 1 - r);
}

/// Divides rounding down.
fn floor_div(a: i128, b: i128) -> (q: i128)
    requires
        b > 0,
        -0x4000_0000_0000_0000_0000_0000_0000_0000 < a < 0x4000_0000_0000_0000_0000_0000_0000_0000,
        b < 0x4000_0000_0000_0000_0000_0000_0000_0000,
    ensures
        q == a / b,
{
    if a >= 0 {
        ((a as u128) / (b as u128)) as i128
    } else {
        let m: u128 = ((0 - a) as u128) + (b as u128) - 1;
        let q: u128 = m / (b as u128);
        proof {
            lemma_floor_of_negative(a as int, b as int, q as int);
            vstd::arithmetic::div_mod::lemma_div_is_ordered(0, m as int, b as int);
            vstd::arithmetic::div_mod::lemma_div_is_ordered_by_denominator(m as int, 1, b as int);
        }
        0 - (q as i128)
    }
}

/// The coordinate of `p` along one axis.
fn coordinate(p: Point, horizontal: bool) -> (c: i32)
    ensures
        c == (if horizontal {
            p.x
        } else {
            p.y
        }),
{
    if horizontal {
        p.x
    } else {
        p.y
    }
}

/// The lowest and the highest coordinate of `points` along one axis.
fn axis_range(points: &Vec<Point>, horizontal: bool) -> (r: (i32, i32))
    requires
        points.len() > 0,
    ensures
        r.0 == axis(points@, horizontal).min(),
        r.1 == axis(points@, horizontal).max(),
        forall|i: int|
            0 <= i < points.len() ==> r.0 <= #[trigger] axis(points@, horizontal)[i] && axis(
                points@,
                horizontal,
            )[i] <= r.1,
{
    let mut low: i32 = coordinate(points[0], horizontal);
    let mut high: i32 = low;
    let ghost mut low_at: int = 0;
    let ghost mut high_at: int = 0;
    let mut i: usize = 1;
    while i < points.len()
        invariant
            1 <= i <= points.len(),
            0 <= low_at < i,
            0 <= high_at < i,
            axis(points@, horizontal)[low_at] == low,
            axis(points@, horizontal)[high_at] == high,
            forall|j: int|
                0 <= j < i ==> low <= #[trigger] axis(points@, horizontal)[j] && axis(
                    points@,
                    horizontal,
                )[j] <= high,
        decreases points.len() - i,
    {
        let c: i32 = coordinate(points[i], horizontal);
        if c < low {
            low = c;
            proof {
                low_at = i as int;
            }
        }
        if c > high {
            high = c;
            proof {
                high_at = i as int;
            }
        }
        i = i + 1;
    }
    proof {
        lemma_min_is(axis(points@, horizontal), low as int, low_at);
        lemma_max_is(axis(points@, horizontal), high as int, high_at);
    }
    (low, high)
}

/// The mean coordinate of `points` along one axis, rounded down.
fn axis_mean(points: &Vec<Point>, horizontal: bool) -> (m: i32)
    ensures
        m == mean(axis(points@, horizontal)),
{
    if points.len() == 0 {
        return 0;
    }
    let ghost v = axis(points@, horizontal);
    let mut sum: i128 = 0;
    let mut i: usize = 0;
    while i < points.len()
        invariant
            i <= points.len(),
            v == axis(points@, horizontal),
            sum == total(v.take(i as int)),
            -0x8000_0000 * i <= sum <= 0x8000_0000 * i,
        decreases points.len() - i,
    {
        let c: i32 = coordinate(points[i], horizontal);
        proof {
            assert(v.take(i + 1).drop_last() == v.take(i as int));
            assert(v.take(i + 1).last() == c);
        }
        sum = sum + c as i128;
        i = i + 1;
    }
    proof {
        assert(v.take(points.len() as int) == v);
        lemma_mean_bounds(v, -0x8000_0000, 0x7fff_ffff);
    }
    floor_div(sum, points.len() as i128) as i32
}

/// Computes the centroid of `points`, each coordinate rounded down. The
/// centroid of no points is the origin.
pub fn get_centroid(points: &Vec<Point>) -> (c: Point)
    ensures
        c == centroid(points@),
{
    Point { x: axis_mean(points, true), y: axis_mean(points, false) }
}

/// Scales one coordinate: the executable form of `scaled_coord`.
fn scale_coordinate(c: i32, low: i32, extent: i64) -> (r: i32)
    requires
        low <= c <= low + extent,
        0 <= extent < 0x1_0000_0000,
    ensures
        r == scaled_coord(c as int, low as int, extent as int),
        0 <= r <= NORMALIZED_EXTENT,
{
    proof {
        lemma_scaled_coord_bounds(c as int, low as int, extent as int);
    }
    if extent > 0 {
        let offset: u64 = (c as i64 - low as i64) as u64;
        ((offset * 65536) / (extent as u64)) as i32
    } else {
        0
    }
}

/// Normalises `points` in place: scales them uniformly so that the larger
/// side of their bounding box measures `NORMALIZED_EXTENT`, then moves their
/// centroid to the origin.
///
/// Points that all coincide have a bounding box without extent; they are all
/// placed on the origin.
pub fn scale_and_translate(points: &mut Vec<Point>)
    ensures
        final(points)@ == normalized(old(points)@),
        forall|i: int|
            0 <= i < final(points).len() ==> -NORMALIZED_EXTENT <= (#[trigger] final(points)[i]).x
                <= NORMALIZED_EXTENT && -NORMALIZED_EXTENT <= final(points)[i].y
                <= NORMALIZED_EXTENT,
{
    if points.len() == 0 {
        assert(normalized(points@) =~= points@);
        return ;
    }
    let xs: (i32, i32) = axis_range(points, true);
    let ys: (i32, i32) = axis_range(points, false);
    let width: i64 = xs.1 as i64 - xs.0 as i64;
    let height: i64 = ys.1 as i64 - ys.0 as i64;
    let side: i64 = if width >= height {
        width
    } else {
        height
    };
    let mut scaled_points: Vec<Point> = Vec::new();
    let mut i: usize = 0;
    while i < points.len()
        invariant
            i <= points.len(),
            scaled_points.len() == i,
            side == extent(points@),
            0 <= side < 0x1_0000_0000,
            xs.0 == axis(points@, true).min(),
            ys.0 == axis(points@, false).min(),
            forall|j: int|
                0 <= j < points.len() ==> xs.0 <= #[trigger] axis(points@, true)[j] && axis(
                    points@,
                    true,
                )[j] <= xs.0 + side,
            forall|j: int|
                0 <= j < points.len() ==> ys.0 <= #[trigger] axis(points@, false)[j] && axis(
                    points@,
                    false,
                )[j] <= ys.0 + side,
            forall|j: int| 0 <= j < i ==> scaled_points[j] == #[trigger] scaled(points@)[j],
            forall|j: int|
                0 <= j < i ==> 0 <= (#[trigger] scaled_points[j]).x <= NORMALIZED_EXTENT && 0
                    <= scaled_points[j].y <= NORMALIZED_EXTENT,
        decreases points.len() - i,
    {
        let p: Point = points[i];
        assert(axis(points@, true)[i as int] == p.x);
        assert(axis(points@, false)[i as int] == p.y);
        let q: Point = Point {
            x: scale_coordinate(p.x, xs.0, side),
            y: scale_coordinate(p.y, ys.0, side),
        };
        scaled_points.push(q);
        i = i + 1;
    }
    assert(scaled_points@ =~= scaled(points@));
    let c: Point = get_centroid(&scaled_points);
    proof {
        assert forall|j: int| 0 <= j < scaled_points.len() implies 0 <= #[trigger] axis(
            scaled_points@,
            true,
        )[j] && axis(scaled_points@, true)[j] <= NORMALIZED_EXTENT by {
            assert(axis(scaled_points@, true)[j] == scaled_points[j].x);
        }
        assert forall|j: int| 0 <= j < scaled_points.len() implies 0 <= #[trigger] axis(
            scaled_points@,
            false,
        )[j] && axis(scaled_points@, false)[j] <= NORMALIZED_EXTENT by {
            assert(axis(scaled_points@, false)[j] == scaled_points[j].y);
        }
        lemma_mean_bounds(axis(scaled_points@, true), 0, NORMALIZED_EXTENT as int);
        lemma_mean_bounds(axis(scaled_points@, false), 0, NORMALIZED_EXTENT as int);
    }
    let mut centered_points: Vec<Point> = Vec::new();
    let mut k: usize = 0;
    while k < scaled_points.len()
        invariant
            k <= scaled_points.len(),
            centered_points.len() == k,
            c == centroid(scaled_points@),
            0 <= c.x <= NORMALIZED_EXTENT,
            0 <= c.y <= NORMALIZED_EXTENT,
            forall|j: int|
                0 <= j < scaled_points.len() ==> 0 <= (#[trigger] scaled_points[j]).x
                    <= NORMALIZED_EXTENT && 0 <= scaled_points[j].y <= NORMALIZED_EXTENT,
            forall|j: int|
                0 <= j < k ==> centered_points[j] == #[trigger] centered(scaled_points@)[j],
            forall|j: int|
                0 <= j < k ==> -NORMALIZED_EXTENT <= (#[trigger] centered_points[j]).x
                    <= NORMALIZED_EXTENT && -NORMALIZED_EXTENT <= centered_points[j].y
                    <= NORMALIZED_EXTENT,
        decreases scaled_points.len() - k,
    {
        let q: Point = scaled_points[k];
        centered_points.push(Point { x: q.x - c.x, y: q.y - c.y });
        k = k + 1;
    }
    assert(centered_points@ =~= centered(scaled_points@));
    *points = centered_points;
}

} // verus!
