//! Natural numbers of any size, as far as powers have to be compared: a
//! number is a sequence of 64-bit digits, the least significant first.

use vstd::prelude::*;
use vstd::arithmetic::power::{lemma_pow0, lemma_pow_increases, pow};
use crate::epsilon::lemma_pow_step;

verus! {

/// The number of values of one digit.
pub open spec fn radix() -> nat {
    0x1_0000_0000_0000_0000
}

/// The weight of the digit at place `i`: the radix to the power of `i`.
pub open spec fn unit(i: nat) -> nat
    decreases i,
{
    if i == 0 {
        1
    } else {
        radix() * unit((i - 1) as nat)
    }
}

/// The number that `digits` stand for.
pub open spec fn value(digits: Seq<u64>) -> nat
    decreases digits.len(),
{
    if digits.len() == 0 {
        0
    } else {
        (value(digits.drop_last()) + digits.last() * unit((digits.len() - 1) as nat)) as nat
    }
}

/// The digits end with one that counts: there is no zero at the top.
pub open spec fn is_trimmed(digits: Seq<u64>) -> bool {
    digits.len() > 0 ==> digits.last() != 0
}

/// A unit is positive, and a higher place weighs at least as much.
pub proof fn lemma_unit_grows(i: nat, j: nat)
    requires
        i <= j,
    ensures
        1 <= unit(i) <= unit(j),
    decreases j,
{
    if j == 0 {
    } else if i == j {
        lemma_unit_grows(0, (j - 1) as nat);
        let below = unit((j - 1) as nat);
        assert(radix() * below >= 1) by (nonlinear_arith)
            requires
                below >= 1,
                radix() >= 1,
        ;
    } else {
        lemma_unit_grows(i, (j - 1) as nat);
        let below = unit((j - 1) as nat);
        assert(radix() * below >= below) by (nonlinear_arith)
            requires
                below >= 1,
                radix() >= 1,
        ;
    }
}

/// A number of so many digits is below the unit of the next place, and a
/// number whose top digit counts is not below the unit of its top place.
pub proof fn lemma_value_bounds(digits: Seq<u64>)
    ensures
        value(digits) < unit(digits.len()),
        digits.len() > 0 && digits.last() != 0 ==> value(digits) >= unit(
            (digits.len() - 1) as nat,
        ),
    decreases digits.len(),
{
    if digits.len() > 0 {
        lemma_value_bounds(digits.drop_last());
        let below = unit((digits.len() - 1) as nat);
        let top: int = digits.last() as int;
        assert(top * below <= (radix() - 1) * below) by (nonlinear_arith)
            requires
                0 <= top <= radix() - 1,
                below >= 0,
        ;
        assert((radix() - 1) * below + below == radix() * below) by (nonlinear_arith);
        if top != 0 {
            assert(top * below >= below) by (nonlinear_arith)
                requires
                    top >= 1,
                    below >= 0,
            ;
        }
    }
}

/// Of two numbers of equally many digits that agree above a place where the
/// first has the greater digit, the first is the greater.
pub proof fn lemma_greater_digit(a: Seq<u64>, b: Seq<u64>, place: int)
    requires
        a.len() == b.len(),
        0 <= place < a.len(),
        forall|j: int| place < j < a.len() ==> a[j] == b[j],
        a[place] > b[place],
    ensures
        value(a) > value(b),
    decreases a.len(),
{
    let top: int = a.len() - 1;
    let below = unit(top as nat);
    if place == top {
        lemma_value_bounds(b.drop_last());
        let x: int = a[place] as int;
        let y: int = b[place] as int;
        assert(x * below >= y * below + below) by (nonlinear_arith)
            requires
                x >= y + 1,
                below >= 0,
        ;
    } else {
        assert(a.last() == b.last());
        lemma_greater_digit(a.drop_last(), b.drop_last(), place);
    }
}

/// Longer numbers are greater, where the top digits count.
pub proof fn lemma_longer_is_greater(a: Seq<u64>, b: Seq<u64>)
    requires
        a.len() > b.len(),
        is_trimmed(a),
    ensures
        value(a) > value(b),
{
    lemma_value_bounds(a);
    lemma_value_bounds(b);
    lemma_unit_grows(b.len(), (a.len() - 1) as nat);
}

/// Multiplies a number by a digit.
pub fn times(a: &Vec<u64>, k: u64) -> (r: Vec<u64>)
    ensures
        value(r@) == value(a@) * k,
        is_trimmed(a@) && k > 0 ==> is_trimmed(r@),
{
    let mut out: Vec<u64> = Vec::new();
    let mut carry: u64 = 0;
    let mut i: usize = 0;
    assert(a@.take(0) =~= Seq::<u64>::empty());
    assert(value(a@.take(0)) * k == 0) by (nonlinear_arith)
        requires
            value(a@.take(0)) == 0,
    ;
    assert(carry * unit(0) == 0) by (nonlinear_arith)
        requires
            carry == 0,
    ;
    while i < a.len()
        invariant
            i <= a.len(),
            out.len() == i,
            value(out@) + carry * unit(i as nat) == value(a@.take(i as int)) * k,
            i > 0 && carry == 0 && a[i - 1] != 0 && k > 0 ==> out[i - 1] != 0,
        decreases a.len() - i,
    {
        let digit: u64 = a[i];
        assert(digit * k + carry < 0x1_0000_0000_0000_0000_0000_0000_0000_0000) by (nonlinear_arith)
            requires
                0 <= digit <= 0xffff_ffff_ffff_ffff,
                0 <= k <= 0xffff_ffff_ffff_ffff,
                0 <= carry <= 0xffff_ffff_ffff_ffff,
        ;
        let product: u128 = (digit as u128) * (k as u128) + (carry as u128);
        let low: u64 = (product % 0x1_0000_0000_0000_0000) as u64;
        let high: u64 = (product / 0x1_0000_0000_0000_0000) as u64;
        proof {
            let here = unit(i as nat);
            let before = value(out@);
            let taken = value(a@.take(i as int));
            assert(a@.take(i + 1).drop_last() =~= a@.take(i as int));
            assert(value(a@.take(i + 1)) == taken + digit * here);
            assert(out@.push(low).drop_last() =~= out@);
            assert(value(out@.push(low)) == before + low * here);
            assert(unit((i + 1) as nat) == radix() * here);
            assert(product == low + high * radix());
            assert(before + low * here + high * (radix() * here) == (taken + digit * here) * k)
                by (nonlinear_arith)
                requires
                    before + carry * here == taken * k,
                    digit * k + carry == low + high * radix(),
            ;
            if high == 0 && digit != 0 && k > 0 {
                assert(digit * k >= 1) by (nonlinear_arith)
                    requires
                        digit >= 1,
                        k >= 1,
                ;
            }
        }
        out.push(low);
        carry = high;
        i = i + 1;
    }
    assert(a@.take(a.len() as int) =~= a@);
    if carry != 0 {
        proof {
            assert(out@.push(carry).drop_last() =~= out@);
        }
        out.push(carry);
    } else {
        assert(carry * unit(i as nat) == 0) by (nonlinear_arith)
            requires
                carry == 0,
        ;
    }
    out
}

/// Tells whether the first of two numbers, both without a zero at the top,
/// is at least the second.
pub fn at_least(a: &Vec<u64>, b: &Vec<u64>) -> (r: bool)
    requires
        is_trimmed(a@),
        is_trimmed(b@),
    ensures
        r == (value(a@) >= value(b@)),
{
    if a.len() > b.len() {
        proof {
            lemma_longer_is_greater(a@, b@);
        }
        return true;
    }
    if a.len() < b.len() {
        proof {
            lemma_longer_is_greater(b@, a@);
        }
        return false;
    }
    let mut i: usize = a.len();
    while i > 0
        invariant
            i <= a.len(),
            a.len() == b.len(),
            forall|j: int| i <= j < a.len() ==> a[j] == b[j],
        decreases i,
    {
        i = i - 1;
        if a[i] > b[i] {
            proof {
                lemma_greater_digit(a@, b@, i as int);
            }
            return true;
        }
        if a[i] < b[i] {
            proof {
                lemma_greater_digit(b@, a@, i as int);
            }
            return false;
        }
    }
    assert(a@ =~= b@);
    true
}

/// The number one.
pub fn one() -> (r: Vec<u64>)
    ensures
        value(r@) == 1,
        is_trimmed(r@),
        r.len() == 1,
{
    let mut r: Vec<u64> = Vec::new();
    r.push(1);
    assert(r@.drop_last() =~= Seq::<u64>::empty());
    assert(value(r@) == value(r@.drop_last()) + 1 * unit(0));
    r
}

/// Computes `base` to the power of `exponent`.
pub fn power(base: u64, exponent: u32) -> (r: Vec<u64>)
    ensures
        value(r@) == pow(base as int, exponent as nat),
        is_trimmed(r@),
{
    let mut r: Vec<u64> = one();
    proof {
        lemma_pow0(base as int);
    }
    if base == 0 {
        if exponent == 0 {
            return r;
        }
        proof {
            vstd::arithmetic::power::lemma0_pow(exponent as nat);
        }
        return Vec::new();
    }
    let mut done: u32 = 0;
    while done < exponent
        invariant
            done <= exponent,
            base > 0,
            value(r@) == pow(base as int, done as nat),
            is_trimmed(r@),
        decreases exponent - done,
    {
        proof {
            lemma_pow_step(base as int, done as nat);
            assert(pow(base as int, done as nat) * base == base * pow(base as int, done as nat))
                by (nonlinear_arith);
        }
        r = times(&r, base);
        done = done + 1;
    }
    r
}

/// Tells whether `base` to the power of `exponent` is at least `target`.
pub fn power_reaches(base: u64, exponent: u32, target: &Vec<u64>) -> (reached: bool)
    requires
        is_trimmed(target@),
    ensures
        reached == (pow(base as int, exponent as nat) >= value(target@)),
{
    if base <= 1 {
        let small: Vec<u64> = power(base, if exponent == 0 {
            0
        } else {
            1
        });
        proof {
            if exponent != 0 {
                vstd::arithmetic::power::lemma_pow1(base as int);
                if base == 0 {
                    vstd::arithmetic::power::lemma0_pow(exponent as nat);
                } else {
                    vstd::arithmetic::power::lemma1_pow(exponent as nat);
                }
            }
        }
        return at_least(&small, target);
    }
    let mut r: Vec<u64> = one();
    let mut done: u32 = 0;
    proof {
        lemma_pow0(base as int);
    }
    while done < exponent
        invariant
            done <= exponent,
            base >= 2,
            value(r@) == pow(base as int, done as nat),
            is_trimmed(r@),
            is_trimmed(target@),
        decreases exponent - done,
    {
        if r.len() > target.len() {
            proof {
                lemma_longer_is_greater(r@, target@);
                lemma_pow_increases(base as nat, done as nat, exponent as nat);
            }
            return true;
        }
        proof {
            lemma_pow_step(base as int, done as nat);
            assert(pow(base as int, done as nat) * base == base * pow(base as int, done as nat))
                by (nonlinear_arith);
        }
        r = times(&r, base);
        done = done + 1;
    }
    at_least(&r, target)
}

} // verus!
