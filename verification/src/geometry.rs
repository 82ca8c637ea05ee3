//! Points of the drawing plane and the integer measures taken on them.

use vstd::prelude::*;

verus! {

/// A position on the drawing plane, in fixed-point units.
#[derive(Clone, Copy, Debug, PartialEq, Eq, Structural, Hash)]
pub struct Point {
    pub x: i32,
    pub y: i32,
}

/// The squared Euclidean distance between two points.
pub open spec fn sq_dist(p: Point, q: Point) -> nat {
    ((p.x - q.x) * (p.x - q.x) + (p.y - q.y) * (p.y - q.y)) as nat
}

/// `r` is the largest natural number whose square does not exceed `v`.
pub open spec fn is_floor_sqrt(v: nat, r: nat) -> bool {
    r * r <= v < (r + 1) * (r + 1)
}

/// The integer square root of `v`, rounded down.
pub open spec fn floor_sqrt(v: nat) -> nat {
    choose|r: nat| is_floor_sqrt(v, r)
}

/// The Euclidean distance between two points, rounded down to a whole unit.
pub open spec fn dist(p: Point, q: Point) -> nat {
    floor_sqrt(sq_dist(p, q))
}

/// The integer square root is unique.
pub proof fn lemma_floor_sqrt_unique(v: nat, r: nat, s: nat)
    requires
        is_floor_sqrt(v, r),
        is_floor_sqrt(v, s),
    ensures
        r == s,
{
    if r < s {
        assert((r + 1) * (r + 1) <= s * s) by (nonlinear_arith)
            requires
                r + 1 <= s,
        ;
    } else if s < r {
        assert((s + 1) * (s + 1) <= r * r) by (nonlinear_arith)
            requires
                s + 1 <= r,
        ;
    }
}

/// A number that squares to at most `v` and whose successor squares above
/// `v` is the integer square root of `v`.
pub proof fn lemma_floor_sqrt_is(v: nat, r: nat)
    requires
        is_floor_sqrt(v, r),
    ensures
        floor_sqrt(v) == r,
{
    lemma_floor_sqrt_unique(v, r, floor_sqrt(v));
}

/// The squared distance between two points fits in 65 bits.
pub proof fn lemma_sq_dist_bound(p: Point, q: Point)
    ensures
        sq_dist(p, q) < 0x2_0000_0000_0000_0000,
        sq_dist(p, q) == sq_dist(q, p),
{
    let dx: int = p.x - q.x;
    let dy: int = p.y - q.y;
    assert(dx * dx < 0x1_0000_0000_0000_0000) by (nonlinear_arith)
        requires
            -0x1_0000_0000 < dx < 0x1_0000_0000,
    ;
    assert(dy * dy < 0x1_0000_0000_0000_0000) by (nonlinear_arith)
        requires
            -0x1_0000_0000 < dy < 0x1_0000_0000,
    ;
    assert(dx * dx >= 0) by (nonlinear_arith);
    assert(dy * dy >= 0) by (nonlinear_arith);
    assert((q.x - p.x) * (q.x - p.x) == dx * dx) by (nonlinear_arith)
        requires
            dx == p.x - q.x,
    ;
    assert((q.y - p.y) * (q.y - p.y) == dy * dy) by (nonlinear_arith)
        requires
            dy == p.y - q.y,
    ;
}

/// One coordinate of the point that lies `num / den` of the way from `a` to
/// `b`, rounded toward `a`.
pub open spec fn lerp_coord(a: int, b: int, num: int, den: int) -> int {
    if a <= b {
        a + ((b - a) * num) / den
    } else {
        a - ((a - b) * num) / den
    }
}

/// The point that lies `num / den` of the way from `p` to `q`, each coordinate
/// rounded toward `p`.
pub open spec fn lerp_point(p: Point, q: Point, num: int, den: int) -> Point {
    Point {
        x: lerp_coord(p.x as int, q.x as int, num, den) as i32,
        y: lerp_coord(p.y as int, q.y as int, num, den) as i32,
    }
}

/// A fraction between zero and one of a span stays within the span.
pub proof fn lemma_fraction_of_span(span: int, num: int, den: int)
    requires
        0 <= span,
        0 <= num <= den,
        0 < den,
    ensures
        0 <= (span * num) / den <= span,
{
    assert(0 <= span * num <= span * den) by (nonlinear_arith)
        requires
            0 <= span,
            0 <= num <= den,
    ;
    vstd::arithmetic::div_mod::lemma_div_is_ordered(0, span * num, den);
    vstd::arithmetic::div_mod::lemma_div_is_ordered(span * num, span * den, den);
    vstd::arithmetic::div_mod::lemma_div_multiples_vanish(span, den);
    assert(span * den == den * span) by (nonlinear_arith);
}

/// An interpolated coordinate lies between the two it was taken from.
pub proof fn lemma_lerp_coord_between(a: int, b: int, num: int, den: int)
    requires
        0 <= num <= den,
        0 < den,
    ensures
        a <= b ==> a <= lerp_coord(a, b, num, den) <= b,
        b <= a ==> b <= lerp_coord(a, b, num, den) <= a,
{
    if a <= b {
        lemma_fraction_of_span(b - a, num, den);
    } else {
        lemma_fraction_of_span(a - b, num, den);
    }
}

/// Computes the squared Euclidean distance between two points.
pub fn distance_squared(p: Point, q: Point) -> (d: u128)
    ensures
        d == sq_dist(p, q),
{
    let dx: i128 = p.x as i128 - q.x as i128;
    let dy: i128 = p.y as i128 - q.y as i128;
    proof {
        lemma_sq_dist_bound(p, q);
        assert(0 <= dx * dx < 0x1_0000_0000_0000_0000) by (nonlinear_arith)
            requires
                -0x1_0000_0000 < dx < 0x1_0000_0000,
        ;
        assert(0 <= dy * dy < 0x1_0000_0000_0000_0000) by (nonlinear_arith)
            requires
                -0x1_0000_0000 < dy < 0x1_0000_0000,
        ;
    }
    let sx: i128 = dx * dx;
    let sy: i128 = dy * dy;
    (sx + sy) as u128
}

/// Computes the integer square root of `v`, rounded down.
pub fn integer_sqrt(v: u128) -> (r: u64)
    ensures
        r == floor_sqrt(v as nat),
        is_floor_sqrt(v as nat, r as nat),
{
    let mut lo: u128 = 0;
    let mut hi: u128 = 0x1_0000_0000_0000_0000;
    assert(hi * hi > v) by (nonlinear_arith)
        requires
            hi == 0x1_0000_0000_0000_0000,
            v < 0x1_0000_0000_0000_0000_0000_0000_0000_0000,
    ;
    while hi - lo > 1
        invariant
            lo < hi <= 0x1_0000_0000_0000_0000,
            lo * lo <= v < hi * hi,
        decreases hi - lo,
    {
        let mid: u128 = lo + (hi - lo) / 2;
        assert(mid * mid < 0x1_0000_0000_0000_0000_0000_0000_0000_0000) by (nonlinear_arith)
            requires
                mid < 0x1_0000_0000_0000_0000,
        ;
        if mid * mid <= v {
            lo = mid;
        } else {
            hi = mid;
        }
    }
    proof {
        lemma_floor_sqrt_is(v as nat, lo as nat);
    }
    lo as u64
}

/// Computes the Euclidean distance between two points, rounded down.
pub fn distance(p: Point, q: Point) -> (d: u64)
    ensures
        d == dist(p, q),
        d < 0x2_0000_0000,
{
    let d: u64 = integer_sqrt(distance_squared(p, q));
    proof {
        lemma_sq_dist_bound(p, q);
        if d >= 0x2_0000_0000 {
            assert(d * d >= 0x2_0000_0000 * 0x2_0000_0000) by (nonlinear_arith)
                requires
                    d >= 0x2_0000_0000,
            ;
        }
    }
    d
}

/// One coordinate of `lerp`.
fn lerp_axis(a: i32, b: i32, num: u64, den: u128) -> (r: i32)
    requires
        0 < den,
        num <= den,
    ensures
        r == lerp_coord(a as int, b as int, num as int, den as int),
{
    if a <= b {
        let span: u128 = (b as i64 - a as i64) as u128;
        proof {
            lemma_fraction_of_span(span as int, num as int, den as int);
            assert(span * num < 0x1_0000_0000_0000_0000_0000_0000) by (nonlinear_arith)
                requires
                    0 <= span < 0x1_0000_0000,
                    0 <= num < 0x1_0000_0000_0000_0000,
            ;
        }
        let step: u128 = (span * (num as u128)) / den;
        (a as i64 + step as i64) as i32
    } else {
        let span: u128 = (a as i64 - b as i64) as u128;
        proof {
            lemma_fraction_of_span(span as int, num as int, den as int);
            assert(span * num < 0x1_0000_0000_0000_0000_0000_0000) by (nonlinear_arith)
                requires
                    0 <= span < 0x1_0000_0000,
                    0 <= num < 0x1_0000_0000_0000_0000,
            ;
        }
        let step: u128 = (span * (num as u128)) / den;
        (a as i64 - step as i64) as i32
    }
}

/// Computes the point that lies `num / den` of the way from `p` to `q`, each
/// coordinate rounded toward `p`.
pub fn lerp(p: Point, q: Point, num: u64, den: u128) -> (r: Point)
    requires
        0 < den,
        num <= den,
    ensures
        r == lerp_point(p, q, num as int, den as int),
{
    Point { x: lerp_axis(p.x, q.x, num, den), y: lerp_axis(p.y, q.y, num, den) }
}

} // verus!
