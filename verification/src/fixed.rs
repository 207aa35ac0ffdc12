//! Fixed-point arithmetic with five decimal places.
//!
//! A quantity `q` is stored as the integer `q * ONE`. Rates (discount,
//! learning and exploration rate) lie between `0` and `ONE`. Products are
//! rounded to the nearest unit, halves away from zero.

use vstd::prelude::*;

verus! {

/// The fixed-point representation of `1.0`.
pub const ONE: i64 = 100_000;

/// Half a unit of the scale, used for rounding.
pub const HALF: i64 = 50_000;

/// The reward of a step that does not reach the goal: minus one.
pub const STEP_PENALTY: i64 = -100_000;

/// The largest number of steps an episode may have.
pub const MAX_STEPS: usize = 0xffff_ffff;

/// A rate is a fraction between zero and one, both included.
pub open spec fn is_rate(x: int) -> bool {
    0 <= x <= ONE
}

/// `x / ONE`, rounded to the nearest integer, halves away from zero.
pub open spec fn round_scaled(x: int) -> int {
    if x >= 0 {
        (x + HALF) / (ONE as int)
    } else {
        -((-x + HALF) / (ONE as int))
    }
}

/// The fixed-point product `rate * x`.
pub open spec fn scaled(rate: int, x: int) -> int {
    round_scaled(rate * x)
}

/// `value` moved toward `target` by the fraction `rate` of their distance.
pub open spec fn blended(value: int, target: int, rate: int) -> int {
    value + scaled(rate, target - value)
}

/// A product with a rate never has a larger magnitude than the quantity, and
/// keeps its sign.
pub proof fn lemma_scaled_bounds(rate: int, x: int)
    requires
        is_rate(rate),
    ensures
        x >= 0 ==> 0 <= scaled(rate, x) <= x,
        x <= 0 ==> x <= scaled(rate, x) <= 0,
{
    if x >= 0 {
        assert(0 <= rate * x <= ONE * x) by (nonlinear_arith)
            requires
                0 <= rate <= ONE,
                x >= 0,
        ;
    } else {
        assert(ONE * x <= rate * x <= 0) by (nonlinear_arith)
            requires
                0 <= rate <= ONE,
                x <= 0,
        ;
    }
}

/// Multiplying by one changes nothing.
pub proof fn lemma_scaled_by_one(x: int)
    ensures
        scaled(ONE as int, x) == x,
{
}

/// Multiplying by zero gives zero.
pub proof fn lemma_scaled_by_zero(x: int)
    ensures
        scaled(0, x) == 0,
{
    assert(0 * x == 0);
}

/// A blend lies between the value and the target.
pub proof fn lemma_blended_between(value: int, target: int, rate: int)
    requires
        is_rate(rate),
    ensures
        value <= target ==> value <= blended(value, target, rate) <= target,
        target <= value ==> target <= blended(value, target, rate) <= value,
{
    lemma_scaled_bounds(rate, target - value);
}

fn scale_wide(rate: i64, x: i128) -> (r: i128)
    requires
        is_rate(rate as int),
        -0x2_0000_0000_0000_0000 <= x <= 0x2_0000_0000_0000_0000,
    ensures
        r == scaled(rate as int, x as int),
{
    assert(-0x2_0000_0000_0000_0000 * ONE <= rate * x <= 0x2_0000_0000_0000_0000 * ONE)
        by (nonlinear_arith)
        requires
            0 <= rate <= ONE,
            -0x2_0000_0000_0000_0000 <= x <= 0x2_0000_0000_0000_0000,
    ;
    let p: i128 = (rate as i128) * x;
    if p >= 0 {
        (p + (HALF as i128)) / (ONE as i128)
    } else {
        -((-p + (HALF as i128)) / (ONE as i128))
    }
}

/// The fixed-point product of a rate and a quantity.
pub fn scale(rate: i64, x: i64) -> (r: i64)
    requires
        is_rate(rate as int),
    ensures
        r == scaled(rate as int, x as int),
{
    proof {
        lemma_scaled_bounds(rate as int, x as int);
    }
    let wide: i128 = scale_wide(rate, x as i128);
    wide as i64
}

/// Moves `value` toward `target` by the fraction `rate` of their distance.
pub fn blend(value: i64, target: i64, rate: i64) -> (r: i64)
    requires
        is_rate(rate as int),
    ensures
        r == blended(value as int, target as int, rate as int),
{
    proof {
        lemma_blended_between(value as int, target as int, rate as int);
    }
    let step: i128 = scale_wide(rate, (target as i128) - (value as i128));
    ((value as i128) + step) as i64
}

} // verus!
