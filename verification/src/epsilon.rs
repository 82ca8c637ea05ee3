//! The dial between speed and accuracy: an exponent `epsilon` between zero
//! and one that sets how many starting offsets a comparison tries.
//!
//! With `n` points to a sequence the number of offsets is `n` to the power of
//! `epsilon`, rounded up. The exponent is held as a fraction `num / den`, and
//! the count is found in whole numbers: it is the least `m` whose `den`-th
//! power is not below the `num`-th power of `n`.

use vstd::prelude::*;
use crate::natural::{is_trimmed, power, power_reaches, value};
use vstd::arithmetic::power::{
    lemma0_pow,
    lemma1_pow,
    lemma_pow0,
    lemma_pow_increases,
    lemma_pow_multiplies,
    lemma_pow_positive,
    pow,
};

verus! {

/// An exponent between zero and one, as the fraction `num / den`.
#[derive(Clone, Copy, Debug, PartialEq, Eq, Structural)]
pub struct Epsilon {
    pub num: u32,
    pub den: u32,
}

impl Epsilon {
    /// The fraction has a denominator and is not above one.
    pub open spec fn is_valid(&self) -> bool {
        0 < self.den && self.num <= self.den
    }

    /// As fractions, `self` is not above `other`.
    pub open spec fn at_most(&self, other: Epsilon) -> bool {
        self.num * other.den <= other.num * self.den
    }

    /// Makes the exponent `num / den`, if that is a fraction between zero and
    /// one.
    pub fn new(num: u32, den: u32) -> (r: Option<Epsilon>)
        ensures
            r is Some <==> 0 < den && num <= den,
            r matches Some(epsilon) ==> epsilon.num == num && epsilon.den == den
                && epsilon.is_valid(),
    {
        if 0 < den && num <= den {
            Some(Epsilon { num: num, den: den })
        } else {
            None
        }
    }
}

/// `m` is `n` to the power of `epsilon`, rounded up: the least number whose
/// `den`-th power is not below the `num`-th power of `n`.
pub open spec fn is_offset_count(n: nat, epsilon: Epsilon, m: nat) -> bool {
    &&& pow(m as int, epsilon.den as nat) >= pow(n as int, epsilon.num as nat)
    &&& m > 0 ==> pow(m - 1, epsilon.den as nat) < pow(n as int, epsilon.num as nat)
}

/// `n` to the power of `epsilon`, rounded up.
pub open spec fn offset_count(n: nat, epsilon: Epsilon) -> nat {
    choose|m: nat| is_offset_count(n, epsilon, m)
}

/// One more factor.
pub proof fn lemma_pow_step(b: int, e: nat)
    ensures
        pow(b, e + 1) == b * pow(b, e),
{
    reveal(pow);
}

/// A power does not fall when its base grows.
pub proof fn lemma_pow_base_increases(x: nat, y: nat, e: nat)
    requires
        x <= y,
    ensures
        0 <= pow(x as int, e) <= pow(y as int, e),
    decreases e,
{
    if e == 0 {
        lemma_pow0(x as int);
        lemma_pow0(y as int);
    } else {
        let f: nat = (e - 1) as nat;
        lemma_pow_base_increases(x, y, f);
        lemma_pow_step(x as int, f);
        lemma_pow_step(y as int, f);
        let a: int = pow(x as int, f);
        let b: int = pow(y as int, f);
        assert(0 <= x * a <= y * b) by (nonlinear_arith)
            requires
                0 <= x <= y,
                0 <= a <= b,
        ;
    }
}

/// A power with a positive exponent grows with its base.
pub proof fn lemma_pow_base_strictly_increases(x: nat, y: nat, e: nat)
    requires
        x < y,
        e > 0,
    ensures
        pow(x as int, e) < pow(y as int, e),
{
    let f: nat = (e - 1) as nat;
    lemma_pow_base_increases(x, y, f);
    lemma_pow_step(x as int, f);
    lemma_pow_step(y as int, f);
    lemma_pow_positive(y as int, f);
    let a: int = pow(x as int, f);
    let b: int = pow(y as int, f);
    assert(x * a < y * b) by (nonlinear_arith)
        requires
            0 <= x < y,
            0 <= a <= b,
            0 < b,
    ;
}

/// There is only one count of offsets.
pub proof fn lemma_offset_count_is(n: nat, epsilon: Epsilon, m: nat)
    requires
        epsilon.den > 0,
        is_offset_count(n, epsilon, m),
    ensures
        offset_count(n, epsilon) == m,
{
    let c = offset_count(n, epsilon);
    assert(is_offset_count(n, epsilon, c));
    if c < m {
        lemma_pow_base_increases(c, (m - 1) as nat, epsilon.den as nat);
    } else if m < c {
        lemma_pow_base_increases(m, (c - 1) as nat, epsilon.den as nat);
    }
}

/// Below every number whose power reaches the target lies a least one.
proof fn lemma_least_reaching(n: nat, epsilon: Epsilon, bound: nat)
    requires
        pow(bound as int, epsilon.den as nat) >= pow(n as int, epsilon.num as nat),
    ensures
        exists|m: nat| m <= bound && is_offset_count(n, epsilon, m),
    decreases bound,
{
    if bound > 0 && pow(bound - 1, epsilon.den as nat) >= pow(n as int, epsilon.num as nat) {
        lemma_least_reaching(n, epsilon, (bound - 1) as nat);
        let m = choose|m: nat| m <= bound - 1 && is_offset_count(n, epsilon, m);
        assert(m <= bound && is_offset_count(n, epsilon, m));
    } else {
        assert(is_offset_count(n, epsilon, bound));
    }
}

/// The power of the number of points itself, or of one where there are no
/// points, reaches the target.
proof fn lemma_points_reach(n: nat, epsilon: Epsilon)
    requires
        epsilon.is_valid(),
    ensures
        pow((if n == 0 {
            1
        } else {
            n as int
        }), epsilon.den as nat) >= pow(n as int, epsilon.num as nat),
        pow(n as int, epsilon.num as nat) >= 0,
{
    lemma_pow_base_increases(n, n, epsilon.num as nat);
    if n == 0 {
        lemma1_pow(epsilon.den as nat);
        if epsilon.num == 0 {
            lemma_pow0(0);
        } else {
            lemma0_pow(epsilon.num as nat);
        }
    } else {
        lemma_pow_increases(n, epsilon.num as nat, epsilon.den as nat);
    }
}

/// Every valid exponent has a count of offsets, and it is not above the
/// number of points, nor above one where there are none.
pub proof fn lemma_offset_count_exists(n: nat, epsilon: Epsilon)
    requires
        epsilon.is_valid(),
    ensures
        is_offset_count(n, epsilon, offset_count(n, epsilon)),
        offset_count(n, epsilon) <= n || offset_count(n, epsilon) <= 1,
{
    let bound: nat = if n == 0 {
        1
    } else {
        n
    };
    lemma_points_reach(n, epsilon);
    lemma_least_reaching(n, epsilon, bound);
    let m = choose|m: nat| m <= bound && is_offset_count(n, epsilon, m);
    lemma_offset_count_is(n, epsilon, m);
}

/// A greater exponent never gives fewer offsets.
pub proof fn lemma_offset_count_increases(n: nat, lesser: Epsilon, greater: Epsilon)
    requires
        n >= 1,
        lesser.is_valid(),
        greater.is_valid(),
        lesser.at_most(greater),
    ensures
        offset_count(n, lesser) <= offset_count(n, greater),
{
    lemma_offset_count_exists(n, lesser);
    lemma_offset_count_exists(n, greater);
    let small = offset_count(n, lesser);
    let large = offset_count(n, greater);
    if large < small {
        let den_lesser: nat = lesser.den as nat;
        let den_greater: nat = greater.den as nat;
        let num_lesser: nat = lesser.num as nat;
        let num_greater: nat = greater.num as nat;
        let base: int = large as int;
        let points: int = n as int;
        // The power of `large` reaches the greater target; raised to the
        // lesser denominator it reaches the lesser target raised to the
        // greater denominator.
        assert(pow(base, den_greater) >= pow(points, num_greater));
        lemma_pow_base_increases(n, n, num_greater);
        lemma_pow_base_increases(large, large, den_greater);
        lemma_pow_base_increases(pow(points, num_greater) as nat, pow(base, den_greater) as nat, den_lesser);
        lemma_pow_multiplies(base, den_greater, den_lesser);
        lemma_pow_multiplies(points, num_greater, den_lesser);
        lemma_pow_multiplies(base, den_lesser, den_greater);
        lemma_pow_multiplies(points, num_lesser, den_greater);
        assert(den_greater * den_lesser == den_lesser * den_greater) by (nonlinear_arith);
        lemma_pow_increases(n, num_lesser * den_greater, num_greater * den_lesser);
        assert(pow(pow(base, den_lesser), den_greater) >= pow(pow(points, num_lesser), den_greater));
        // Were the power of `large` below the lesser target, it would stay
        // below when both are raised to the greater denominator.
        lemma_pow_base_increases(large, large, den_lesser);
        lemma_pow_base_increases(n, n, num_lesser);
        if pow(base, den_lesser) < pow(points, num_lesser) {
            lemma_pow_base_strictly_increases(pow(base, den_lesser) as nat, pow(points, num_lesser) as nat, den_greater);
        }
        assert(pow(base, den_lesser) >= pow(points, num_lesser));
        // So `large` reaches the lesser target, while `small - 1`, which is
        // not below `large`, does not.
        lemma_pow_base_increases(large, (small - 1) as nat, den_lesser);
    }
}

/// Computes the number of offsets to try with `n` points to a sequence: `n`
/// to the power of `epsilon`, rounded up.
///
/// The count is found by comparing whole powers, however large, so it is
/// exact for every exponent. The powers have `num` and `den` factors: the
/// time taken grows with both, and a fraction in lowest terms is quickest.
pub fn restart_offsets(n: usize, epsilon: Epsilon) -> (count: usize)
    requires
        epsilon.is_valid(),
    ensures
        count == offset_count(n as nat, epsilon),
        count <= n || count <= 1,
{
    let target: Vec<u64> = power(n as u64, epsilon.num);
    let mut low: usize = 0;
    let mut high: usize = if n == 0 {
        1
    } else {
        n
    };
    proof {
        lemma_points_reach(n as nat, epsilon);
    }
    while low < high
        invariant
            low <= high,
            high <= n || high <= 1,
            epsilon.den > 0,
            is_trimmed(target@),
            value(target@) == pow(n as int, epsilon.num as nat),
            pow(high as int, epsilon.den as nat) >= value(target@),
            low > 0 ==> pow(low - 1, epsilon.den as nat) < value(target@),
        decreases high - low,
    {
        let middle: usize = low + (high - low) / 2;
        if power_reaches(middle as u64, epsilon.den, &target) {
            high = middle;
        } else {
            low = middle + 1;
        }
    }
    proof {
        lemma_offset_count_is(n as nat, epsilon, low as nat);
    }
    low
}

} // verus!
