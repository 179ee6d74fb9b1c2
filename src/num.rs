//! Fixed-point numbers: a quantity `x` is held as the integer `x * SCALE`,
//! and every operation saturates at the bounds of `i64`.
use vstd::prelude::*;

verus! {

/// Number of units in one whole: values carry six decimal places.
pub const SCALE: i64 = 1_000_000;

/// Saturates a mathematical integer into the range of `i64`.
pub open spec fn clamp(x: int) -> int {
    if x < i64::MIN {
        i64::MIN as int
    } else if x > i64::MAX {
        i64::MAX as int
    } else {
        x
    }
}

/// Integer division rounding toward zero, for a positive divisor.
pub open spec fn trunc_div(a: int, d: int) -> int {
    if a >= 0 {
        a / d
    } else {
        -((-a) / d)
    }
}

/// Saturating sum of two fixed-point values.
pub open spec fn sat_add(a: i64, b: i64) -> i64 {
    clamp(a + b) as i64
}

/// Saturating difference of two fixed-point values.
pub open spec fn sat_sub(a: i64, b: i64) -> i64 {
    clamp(a - b) as i64
}

/// Saturating product of two fixed-point values, rounded toward zero.
pub open spec fn scaled_mul(a: i64, b: i64) -> i64 {
    clamp(trunc_div(a * b, SCALE as int)) as i64
}

/// `base * ratio + delta` in fixed point.
pub open spec fn combine(base: i64, ratio: i64, delta: i64) -> i64 {
    sat_add(scaled_mul(base, ratio), delta)
}

/// Clamps an `i128` into `i64`.
pub fn clamp_wide(x: i128) -> (r: i64)
    ensures
        r == clamp(x as int),
{
    if x < i64::MIN as i128 {
        i64::MIN
    } else if x > i64::MAX as i128 {
        i64::MAX
    } else {
        x as i64
    }
}

/// Saturating addition.
pub fn num_add(a: i64, b: i64) -> (r: i64)
    ensures
        r == sat_add(a, b),
{
    clamp_wide(a as i128 + b as i128)
}

/// Saturating subtraction.
pub fn num_sub(a: i64, b: i64) -> (r: i64)
    ensures
        r == sat_sub(a, b),
{
    clamp_wide(a as i128 - b as i128)
}

/// Saturating fixed-point multiplication.
pub fn num_mul(a: i64, b: i64) -> (r: i64)
    ensures
        r == scaled_mul(a, b),
{
    let ai: i128 = a as i128;
    let bi: i128 = b as i128;
    proof {
        let bound: int = 0x8000_0000_0000_0000;
        assert(-bound <= ai <= bound && -bound <= bi <= bound);
        assert(-bound * bound <= ai * bi <= bound * bound) by (nonlinear_arith)
            requires
                -bound <= ai <= bound,
                -bound <= bi <= bound,
        ;
    }
    let p: i128 = ai * bi;
    let q: i128 = if p >= 0 {
        ((p as u128) / (SCALE as u128)) as i128
    } else {
        let m: u128 = (0 - p) as u128;
        0 - ((m / (SCALE as u128)) as i128)
    };
    clamp_wide(q)
}

/// Fixed-point `base * ratio + delta`.
pub fn num_combine(base: i64, ratio: i64, delta: i64) -> (r: i64)
    ensures
        r == combine(base, ratio, delta),
{
    num_add(num_mul(base, ratio), delta)
}

} // verus!
