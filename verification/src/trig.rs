//! Sine, cosine and tangent by their power series, for angles of at most
//! a quarter turn.
use crate::fixed::Fixed;
use vstd::prelude::*;

verus! {

/// The raw value of pi, rounded to the nearest.
pub const PI_RAW: i64 = 13493037705;

/// The nested form of an alternating power series in the squared angle
/// `x2`, from the factor with denominator `k (k + 1)` to the one with
/// denominator `last (last + 1)`:
/// `1 - x2 / (k (k + 1)) * (1 - x2 / ((k + 2) (k + 3)) * (...))`.
pub open spec fn nested_series(x2: Fixed, k: int, last: int) -> Fixed
    decreases last + 2 - k,
{
    if k > last {
        Fixed::whole(1)
    } else {
        Fixed::whole(1).minus(
            x2.times(nested_series(x2, k + 2, last)).over(Fixed::whole(k * (k + 1))),
        )
    }
}

/// The sine of `x` radians: the series up to the power 17.
pub open spec fn sine(x: Fixed) -> Fixed {
    x.times(nested_series(x.times(x), 2, 16))
}

/// The cosine of `x` radians: the series up to the power 16.
pub open spec fn cosine(x: Fixed) -> Fixed {
    nested_series(x.times(x), 1, 15)
}

/// The tangent of `x` radians: the sine over the cosine.
pub open spec fn tangent(x: Fixed) -> Fixed {
    sine(x).over(cosine(x))
}

/// Evaluates the nested series from the innermost factor outward.
fn series(x2: Fixed, first: i32, last: i32) -> (r: Fixed)
    requires
        1 <= first <= last <= 100,
        (last - first) % 2 == 0,
    ensures
        r == nested_series(x2, first as int, last as int),
{
    let mut acc = Fixed::one();
    let mut k: i32 = last;
    while k >= first
        invariant
            first - 2 <= k <= last,
            1 <= first <= last <= 100,
            (k - first) % 2 == 0,
            acc == nested_series(x2, k + 2, last as int),
        decreases k + 2,
    {
        assert(0 < k * (k + 1) <= 10100) by (nonlinear_arith)
            requires
                1 <= k <= 100,
        ;
        acc = Fixed::one() - (x2 * acc) / Fixed::from_int(k * (k + 1));
        k = k - 2;
    }
    acc
}

/// The sine of `x` radians.
pub fn sin(x: Fixed) -> (r: Fixed)
    ensures
        r == sine(x),
{
    x * series(x * x, 2, 16)
}

/// The cosine of `x` radians.
pub fn cos(x: Fixed) -> (r: Fixed)
    ensures
        r == cosine(x),
{
    series(x * x, 1, 15)
}

/// The tangent of `x` radians.
pub fn tan(x: Fixed) -> (r: Fixed)
    ensures
        r == tangent(x),
{
    sin(x) / cos(x)
}

} // verus!
