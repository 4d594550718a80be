//! Three-component vectors of fixed-point reals, used as points, directions
//! and colours.
//!
//! Dot products, cross products and lengths are taken of the exact
//! products of the raw values and rounded once, so they are as exact for a
//! short vector as the range allows. A vector is normalised after it has
//! been stretched by a power of two, so the unit vector of every vector
//! but the origin has length one up to rounding, however short or long the
//! vector is.
use crate::fixed::{
    floor_sqrt, lemma_floor_sqrt_at_least, quotient, rounded_quotient, wide_sqrt, Fixed, ONE_RAW,
};
use crate::random::{thread_generator, uniform};
use core::ops::{Add, AddAssign, Div, Mul, MulAssign, Neg, Sub};
use vstd::prelude::*;

verus! {

/// A component counts as zero when its magnitude, as a raw value, is below
/// this: `10^-8`, rounded up.
pub const NEAR_ZERO_RAW: i64 = 43;

/// How often a rejection sampler draws before it settles for the origin.
pub const REJECTION_LIMIT: u32 = 256;

/// The raw magnitude from which a vector is no longer stretched: `2^61`.
pub const STRETCH_RAW: i64 = 0x2000_0000_0000_0000;

/// The power of two that brings the magnitude `l` to [`STRETCH_RAW`] or
/// above: one for a magnitude that is there already, and for zero.
pub open spec fn stretch_factor(l: int) -> int
    decreases
            (if 0 < l < STRETCH_RAW {
                STRETCH_RAW - l
            } else {
                0
            }),
{
    if l <= 0 || l >= STRETCH_RAW {
        1
    } else {
        2 * stretch_factor(2 * l)
    }
}

/// A stretch factor is at least one.
pub proof fn lemma_stretch_positive(l: int)
    ensures
        stretch_factor(l) >= 1,
    decreases
            (if 0 < l < STRETCH_RAW {
                STRETCH_RAW - l
            } else {
                0
            }),
{
    if 0 < l < STRETCH_RAW {
        lemma_stretch_positive(2 * l);
    }
}

/// A magnitude times its stretch factor lies between `2^61` and `2^63`.
pub proof fn lemma_stretch_factor(l: int)
    requires
        0 <= l < 0x8000_0000_0000_0000,
    ensures
        1 <= stretch_factor(l) < 0x8000_0000_0000_0000,
        l > 0 ==> STRETCH_RAW <= l * stretch_factor(l) < 0x8000_0000_0000_0000,
        l == 0 ==> stretch_factor(l) == 1,
    decreases
            (if 0 < l < STRETCH_RAW {
                STRETCH_RAW - l
            } else {
                0
            }),
{
    if 0 < l < STRETCH_RAW {
        lemma_stretch_factor(2 * l);
        let f = stretch_factor(2 * l);
        assert(l * (2 * f) == (2 * l) * f) by (nonlinear_arith);
        assert(2 * f <= (2 * l) * f) by (nonlinear_arith)
            requires
                l >= 1,
                f >= 1,
        ;
    } else {
        assert(l * 1 == l);
    }
}

/// A magnitude of at most `l`, stretched by `m`, is at most `l * m`, and
/// its square fits with two more in 128 bits.
proof fn lemma_stretched(x: int, l: int, m: int)
    requires
        0 <= x <= l,
        1 <= m,
        l * m < 0x8000_0000_0000_0000,
    ensures
        0 <= x * m <= l * m,
        (x * m) * (x * m) < 0x4000_0000_0000_0000_0000_0000_0000_0000,
        x == l ==> (l * m) * (l * m) == (x * m) * (x * m),
{
    assert(0 <= x * m <= l * m) by (nonlinear_arith)
        requires
            0 <= x <= l,
            1 <= m,
    ;
    lemma_square_bound(x * m);
}

/// A square of a magnitude below `2^63` is below `2^126`.
pub proof fn lemma_square_bound(x: int)
    requires
        0 <= x < 0x8000_0000_0000_0000,
    ensures
        0 <= x * x < 0x4000_0000_0000_0000_0000_0000_0000_0000,
{
    assert(0 <= x * x < 0x4000_0000_0000_0000_0000_0000_0000_0000) by (nonlinear_arith)
        requires
            0 <= x < 0x8000_0000_0000_0000,
    ;
}

/// A raw value of magnitude at most `l`, stretched by `m`, times one, has
/// a magnitude below `2^95`, and at most `len` times one where `l * m` is
/// at most `len`.
proof fn lemma_stretched_signed(x: int, l: int, m: int, len: int)
    requires
        -l <= x <= l,
        1 <= m,
        l * m < 0x8000_0000_0000_0000,
    ensures
        -0x8000_0000_0000_0000 < x * m < 0x8000_0000_0000_0000,
        -0x8000_0000_0000_0000_0000_0000 < (x * m) * ONE_RAW < 0x8000_0000_0000_0000_0000_0000,
{
    assert(-(l * m) <= x * m <= l * m) by (nonlinear_arith)
        requires
            -l <= x <= l,
            1 <= m,
    ;
    assert(-0x8000_0000_0000_0000_0000_0000 < (x * m) * ONE_RAW < 0x8000_0000_0000_0000_0000_0000)
        by (nonlinear_arith)
        requires
            -0x8000_0000_0000_0000 < x * m < 0x8000_0000_0000_0000,
            ONE_RAW == 0x1_0000_0000,
    ;
}

/// A component of a vector is at most the length of the vector, so the
/// quotient of the component times one by the length is at most one.
proof fn lemma_component_within(w: int, q: int, len: int)
    requires
        0 <= w * w <= q,
        len == floor_sqrt(q),
        len > 0,
    ensures
        -ONE_RAW <= quotient(w * ONE_RAW, len) <= ONE_RAW,
        -len <= w <= len,
{
    let a = if w < 0 { -w } else { w };
    assert(a * a == w * w) by (nonlinear_arith)
        requires
            a == w || a == -w,
    ;
    lemma_floor_sqrt_at_least(q, a);
    assert(0 <= a * ONE_RAW <= len * ONE_RAW) by (nonlinear_arith)
        requires
            0 <= a <= len,
            ONE_RAW > 0,
    ;
    vstd::arithmetic::div_mod::lemma_div_is_ordered(a * ONE_RAW, len * ONE_RAW, len);
    vstd::arithmetic::div_mod::lemma_div_multiples_vanish(ONE_RAW as int, len);
    assert(len * ONE_RAW == ONE_RAW * len) by (nonlinear_arith);
    vstd::arithmetic::div_mod::lemma_div_pos_is_pos(a * ONE_RAW, len);
    if w < 0 {
        assert(-(w * ONE_RAW) == a * ONE_RAW) by (nonlinear_arith)
            requires
                a == -w,
        ;
        assert(w * ONE_RAW <= 0) by (nonlinear_arith)
            requires
                w < 0,
                ONE_RAW > 0,
        ;
    } else {
        assert(w * ONE_RAW >= 0) by (nonlinear_arith)
            requires
                w >= 0,
                ONE_RAW > 0,
        ;
    }
}

/// The product of two products, with the factors paired the other way.
proof fn lemma_crossed(a: int, x: int, b: int, y: int) -> (r: int)
    ensures
        r == (a * x) * (b * y),
        r == (a * b) * (x * y),
{
    assert((a * x) * (b * y) == (a * b) * (x * y)) by (nonlinear_arith);
    (a * x) * (b * y)
}

/// The magnitude `v` of the quotient of `w` times one by `len`: `v * len`
/// is at most the magnitude of `w` times one, which is below
/// `(v + 1) * len`.
proof fn lemma_unit_component(w: int, len: int) -> (v: int)
    requires
        len > 0,
        -len <= w <= len,
    ensures
        0 <= v <= ONE_RAW,
        v == quotient(w * ONE_RAW, len) || v == -quotient(w * ONE_RAW, len),
        v * v == quotient(w * ONE_RAW, len) * quotient(w * ONE_RAW, len),
        (v * v) * (len * len) <= (w * w) * (ONE_RAW * ONE_RAW),
        ((v + 1) * (v + 1)) * (len * len) > (w * w) * (ONE_RAW * ONE_RAW),
{
    let a = if w < 0 { -w } else { w };
    let big = a * ONE_RAW;
    assert(0 <= big <= len * ONE_RAW) by (nonlinear_arith)
        requires
            0 <= a <= len,
            big == a * ONE_RAW,
            ONE_RAW > 0,
    ;
    let v = big / len;
    vstd::arithmetic::div_mod::lemma_fundamental_div_mod(big, len);
    vstd::arithmetic::div_mod::lemma_mod_bound(big, len);
    vstd::arithmetic::div_mod::lemma_div_pos_is_pos(big, len);
    vstd::arithmetic::div_mod::lemma_div_is_ordered(big, len * ONE_RAW, len);
    vstd::arithmetic::div_mod::lemma_div_multiples_vanish(ONE_RAW as int, len);
    assert(len * ONE_RAW == ONE_RAW * len) by (nonlinear_arith);
    let p = v * len;
    assert(p == len * v) by (nonlinear_arith)
        requires
            p == v * len,
    ;
    assert(0 <= p <= big < p + len);
    assert(p * p <= big * big) by (nonlinear_arith)
        requires
            0 <= p <= big,
    ;
    assert((p + len) * (p + len) > big * big) by (nonlinear_arith)
        requires
            0 <= big < p + len,
    ;
    assert(p * p == (v * v) * (len * len)) by (nonlinear_arith)
        requires
            p == v * len,
    ;
    assert((p + len) * (p + len) == ((v + 1) * (v + 1)) * (len * len)) by (nonlinear_arith)
        requires
            p == v * len,
    ;
    assert(big * big == (w * w) * (ONE_RAW * ONE_RAW)) by (nonlinear_arith)
        requires
            big == a * ONE_RAW,
            a == w || a == -w,
    ;
    if w < 0 {
        assert(w * ONE_RAW == -big) by (nonlinear_arith)
            requires
                a == -w,
                big == a * ONE_RAW,
        ;
        assert(v * v == (-v) * (-v)) by (nonlinear_arith);
    } else {
        assert(w * ONE_RAW == big);
    }
    v
}

/// The magnitude of the raw value.
pub(crate) fn magnitude_of(a: Fixed) -> (r: u128)
    ensures
        r == a@ || r == -a@,
        0 <= r < 0x8000_0000_0000_0000,
{
    let v: i64 = a.raw();
    if v < 0 {
        (-v) as u128
    } else {
        v as u128
    }
}

/// The exact product of two raw values.
pub(crate) fn product_of(a: Fixed, b: Fixed) -> (r: i128)
    ensures
        r == a@ * b@,
        -0x4000_0000_0000_0000_0000_0000_0000_0000 < r < 0x4000_0000_0000_0000_0000_0000_0000_0000,
{
    let x: i128 = a.raw() as i128;
    let y: i128 = b.raw() as i128;
    assert(-0x4000_0000_0000_0000_0000_0000_0000_0000 < x * y
        < 0x4000_0000_0000_0000_0000_0000_0000_0000) by (nonlinear_arith)
        requires
            -0x8000_0000_0000_0000 < x < 0x8000_0000_0000_0000,
            -0x8000_0000_0000_0000 < y < 0x8000_0000_0000_0000,
    ;
    x * y
}

/// The sum of three products over one, rounded toward zero once and
/// brought into the range.
fn quotient_of_sum(a: i128, b: i128, c: i128) -> (r: Fixed)
    requires
        -0x4000_0000_0000_0000_0000_0000_0000_0000 < a < 0x4000_0000_0000_0000_0000_0000_0000_0000,
        -0x4000_0000_0000_0000_0000_0000_0000_0000 < b < 0x4000_0000_0000_0000_0000_0000_0000_0000,
        -0x4000_0000_0000_0000_0000_0000_0000_0000 < c < 0x4000_0000_0000_0000_0000_0000_0000_0000,
    ensures
        r == Fixed::of(quotient(a + b + c, ONE_RAW as int)),
{
    let p: i128 = a + b;
    if c > 0 && p > i128::MAX - c {
        proof {
            vstd::arithmetic::div_mod::lemma_div_is_ordered(
                0x7fff_ffff_ffff_ffff_ffff_ffff_ffff_ffff,
                a + b + c,
                ONE_RAW as int,
            );
        }
        Fixed::max_value()
    } else if c < 0 && p < -i128::MAX - c {
        proof {
            vstd::arithmetic::div_mod::lemma_div_is_ordered(
                0x7fff_ffff_ffff_ffff_ffff_ffff_ffff_ffff,
                -(a + b + c),
                ONE_RAW as int,
            );
        }
        Fixed::max_value().neg()
    } else {
        Fixed::saturate(rounded_quotient(p + c, ONE_RAW as i128))
    }
}

/// A vector, a point or a colour.
#[derive(Clone, Copy, PartialEq, Eq, Structural, Debug)]
pub struct Vec3 {
    pub x: Fixed,
    pub y: Fixed,
    pub z: Fixed,
}

impl Vec3 {
    /// The three components are well-formed numbers.
    pub open spec fn wf(self) -> bool {
        self.x.wf() && self.y.wf() && self.z.wf()
    }

    /// The vector with all components zero.
    pub open spec fn origin() -> Vec3 {
        Vec3 { x: Fixed::whole(0), y: Fixed::whole(0), z: Fixed::whole(0) }
    }

    /// The sum, component by component.
    pub open spec fn plus(self, rhs: Vec3) -> Vec3 {
        Vec3 { x: self.x.plus(rhs.x), y: self.y.plus(rhs.y), z: self.z.plus(rhs.z) }
    }

    /// The difference, component by component.
    pub open spec fn minus(self, rhs: Vec3) -> Vec3 {
        Vec3 { x: self.x.minus(rhs.x), y: self.y.minus(rhs.y), z: self.z.minus(rhs.z) }
    }

    /// The opposite vector.
    pub open spec fn negated(self) -> Vec3 {
        Vec3 { x: self.x.negated(), y: self.y.negated(), z: self.z.negated() }
    }

    /// The vector scaled by `k`.
    pub open spec fn scaled(self, k: Fixed) -> Vec3 {
        Vec3 { x: self.x.times(k), y: self.y.times(k), z: self.z.times(k) }
    }

    /// The product, component by component.
    pub open spec fn times(self, rhs: Vec3) -> Vec3 {
        Vec3 { x: self.x.times(rhs.x), y: self.y.times(rhs.y), z: self.z.times(rhs.z) }
    }

    /// The vector divided by `k`.
    pub open spec fn divided(self, k: Fixed) -> Vec3 {
        Vec3 { x: self.x.over(k), y: self.y.over(k), z: self.z.over(k) }
    }

    /// The quotient, component by component.
    pub open spec fn over(self, rhs: Vec3) -> Vec3 {
        Vec3 { x: self.x.over(rhs.x), y: self.y.over(rhs.y), z: self.z.over(rhs.z) }
    }

    /// The dot product of the raw values, exact: the dot product times
    /// `2^64`.
    pub open spec fn raw_dot(self, other: Vec3) -> int {
        self.x@ * other.x@ + self.y@ * other.y@ + self.z@ * other.z@
    }

    /// The dot product: the exact sum of the three products, rounded
    /// toward zero once.
    pub open spec fn spec_dot(self, other: Vec3) -> Fixed {
        Fixed::of(quotient(self.raw_dot(other), ONE_RAW as int))
    }

    /// The squared length: the exact sum of the three squares, rounded
    /// down once.
    pub open spec fn spec_length_squared(self) -> Fixed {
        self.spec_dot(self)
    }

    /// The length: the square root of the exact sum of the three squares,
    /// rounded down.
    pub open spec fn spec_length(self) -> Fixed {
        Fixed::of(floor_sqrt(self.raw_dot(self)))
    }

    /// The cross product, each component the exact difference of two
    /// products, rounded toward zero once.
    pub open spec fn spec_cross(self, other: Vec3) -> Vec3 {
        Vec3 {
            x: Fixed::of(
                quotient(self.y@ * other.z@ - other.y@ * self.z@, ONE_RAW as int),
            ),
            y: Fixed::of(
                quotient(self.z@ * other.x@ - other.z@ * self.x@, ONE_RAW as int),
            ),
            z: Fixed::of(
                quotient(self.x@ * other.y@ - other.x@ * self.y@, ONE_RAW as int),
            ),
        }
    }

    /// The largest magnitude among the raw values of the components.
    pub open spec fn largest(self) -> int {
        let x = if self.x@ < 0 { -self.x@ } else { self.x@ };
        let y = if self.y@ < 0 { -self.y@ } else { self.y@ };
        let z = if self.z@ < 0 { -self.z@ } else { self.z@ };
        if x >= y && x >= z {
            x
        } else if y >= z {
            y
        } else {
            z
        }
    }

    /// The power of two by which a vector is stretched before its length is
    /// taken, so that a short vector loses no precision: the least that
    /// brings the largest raw magnitude to [`STRETCH_RAW`] or above, and
    /// one for the origin.
    pub open spec fn stretch(self) -> int {
        stretch_factor(self.largest())
    }

    /// The length of the stretched vector in raw units, rounded down.
    pub open spec fn stretched_length(self) -> int {
        let m = self.stretch();
        floor_sqrt(
            (self.x@ * m) * (self.x@ * m) + (self.y@ * m) * (self.y@ * m) + (self.z@ * m) * (
            self.z@ * m),
        )
    }

    /// The vector divided by its length, each component rounded toward
    /// zero once; the origin for the origin. The length is taken of the
    /// stretched vector, so the result is as exact for a short vector as
    /// for a long one.
    pub open spec fn spec_unit_vector(self) -> Vec3 {
        let m = self.stretch();
        let len = self.stretched_length();
        if len == 0 {
            Vec3::origin()
        } else {
            Vec3 {
                x: Fixed::of(quotient((self.x@ * m) * ONE_RAW, len)),
                y: Fixed::of(quotient((self.y@ * m) * ONE_RAW, len)),
                z: Fixed::of(quotient((self.z@ * m) * ONE_RAW, len)),
            }
        }
    }

    /// Whether every component is below `10^-8` in magnitude.
    pub open spec fn spec_near_zero(self) -> bool {
        &&& self.x.magnitude()@ < NEAR_ZERO_RAW
        &&& self.y.magnitude()@ < NEAR_ZERO_RAW
        &&& self.z.magnitude()@ < NEAR_ZERO_RAW
    }

    /// Every component lies in `[low, high)`.
    pub open spec fn within(self, low: Fixed, high: Fixed) -> bool {
        &&& low@ <= self.x@ < high@
        &&& low@ <= self.y@ < high@
        &&& low@ <= self.z@ < high@
    }

    /// Every component lies in `[0, 1]`.
    pub open spec fn in_unit_cube(self) -> bool {
        &&& 0 <= self.x@ <= ONE_RAW
        &&& 0 <= self.y@ <= ONE_RAW
        &&& 0 <= self.z@ <= ONE_RAW
    }

    /// Every component lies in `[-1, 1]`.
    pub open spec fn within_unit(self) -> bool {
        &&& -ONE_RAW <= self.x@ <= ONE_RAW
        &&& -ONE_RAW <= self.y@ <= ONE_RAW
        &&& -ONE_RAW <= self.z@ <= ONE_RAW
    }

    /// The squared length is below one.
    pub open spec fn in_unit_ball(self) -> bool {
        self.spec_length_squared()@ < ONE_RAW
    }

    /// The vector with the given components.
    pub fn new(x: Fixed, y: Fixed, z: Fixed) -> (r: Vec3)
        ensures
            r == (Vec3 { x, y, z }),
    {
        Vec3 { x, y, z }
    }

    /// The vector with all components zero.
    pub fn zero() -> (r: Vec3)
        ensures
            r == Vec3::origin(),
    {
        Vec3 { x: Fixed::zero(), y: Fixed::zero(), z: Fixed::zero() }
    }

    /// The first component.
    pub fn x(&self) -> (r: Fixed)
        ensures
            r == self.x,
    {
        self.x
    }

    /// The second component.
    pub fn y(&self) -> (r: Fixed)
        ensures
            r == self.y,
    {
        self.y
    }

    /// The third component.
    pub fn z(&self) -> (r: Fixed)
        ensures
            r == self.z,
    {
        self.z
    }

    /// The exact sum of the squares of the raw values.
    pub fn raw_length_squared(self) -> (r: u128)
        ensures
            r == self.raw_dot(self),
            r < 0xc000_0000_0000_0000_0000_0000_0000_0000u128,
    {
        let x: u128 = magnitude_of(self.x);
        let y: u128 = magnitude_of(self.y);
        let z: u128 = magnitude_of(self.z);
        proof {
            lemma_square_bound(x as int);
            lemma_square_bound(y as int);
            lemma_square_bound(z as int);
            assert(self.x@ * self.x@ == x * x) by (nonlinear_arith)
                requires
                    x == self.x@ || x == -self.x@,
            ;
            assert(self.y@ * self.y@ == y * y) by (nonlinear_arith)
                requires
                    y == self.y@ || y == -self.y@,
            ;
            assert(self.z@ * self.z@ == z * z) by (nonlinear_arith)
                requires
                    z == self.z@ || z == -self.z@,
            ;
        }
        x * x + y * y + z * z
    }

    /// The length, rounded down.
    #[verifier::when_used_as_spec(spec_length)]
    pub fn length(self) -> (r: Fixed)
        ensures
            r == self.spec_length(),
            r@ >= 0,
    {
        let len: u128 = wide_sqrt(self.raw_length_squared());
        Fixed::saturate(len as i128)
    }

    /// The squared length.
    #[verifier::when_used_as_spec(spec_length_squared)]
    pub fn length_squared(self) -> (r: Fixed)
        ensures
            r == self.spec_length_squared(),
    {
        self.dot(self)
    }

    /// The dot product.
    #[verifier::when_used_as_spec(spec_dot)]
    pub fn dot(self, other: Vec3) -> (r: Fixed)
        ensures
            r == self.spec_dot(other),
    {
        let a: i128 = product_of(self.x, other.x);
        let b: i128 = product_of(self.y, other.y);
        let c: i128 = product_of(self.z, other.z);
        quotient_of_sum(a, b, c)
    }

    /// Whether the exact dot product is negative.
    pub fn dot_is_negative(self, other: Vec3) -> (r: bool)
        ensures
            r == (self.raw_dot(other) < 0),
    {
        let a: i128 = product_of(self.x, other.x);
        let b: i128 = product_of(self.y, other.y);
        let c: i128 = product_of(self.z, other.z);
        a + b < -c
    }

    /// The cross product.
    #[verifier::when_used_as_spec(spec_cross)]
    pub fn cross(self, other: Vec3) -> (r: Vec3)
        ensures
            r == self.spec_cross(other),
    {
        let x: i128 = product_of(self.y, other.z) - product_of(other.y, self.z);
        let y: i128 = product_of(self.z, other.x) - product_of(other.z, self.x);
        let z: i128 = product_of(self.x, other.y) - product_of(other.x, self.y);
        Vec3 {
            x: Fixed::saturate(rounded_quotient(x, ONE_RAW as i128)),
            y: Fixed::saturate(rounded_quotient(y, ONE_RAW as i128)),
            z: Fixed::saturate(rounded_quotient(z, ONE_RAW as i128)),
        }
    }

    /// The factor by which the vector is stretched, and the length of the
    /// stretched vector in raw units. For every vector but the origin the
    /// length is at least [`STRETCH_RAW`], and no stretched component
    /// exceeds it.
    pub fn stretch_and_length(self) -> (r: (i128, u128))
        ensures
            r.0 == self.stretch(),
            r.1 == self.stretched_length(),
            1 <= r.0 < 0x8000_0000_0000_0000,
            self.largest() * r.0 < 0x8000_0000_0000_0000,
            self.largest() == 0 ==> r.1 == 0,
            self.largest() > 0 ==> STRETCH_RAW <= r.1 < 0x1_0000_0000_0000_0000 && self.largest()
                * r.0 <= r.1,
    {
        let x: u128 = magnitude_of(self.x);
        let y: u128 = magnitude_of(self.y);
        let z: u128 = magnitude_of(self.z);
        let l: u128 = if x >= y && x >= z {
            x
        } else if y >= z {
            y
        } else {
            z
        };
        let mut m: u128 = 1;
        let mut lm: u128 = l;
        while 0 < lm && lm < STRETCH_RAW as u128
            invariant
                l == self.largest(),
                lm == l * m,
                1 <= m,
                m <= lm || l == 0,
                l <= lm < 0x8000_0000_0000_0000,
                stretch_factor(l as int) == m * stretch_factor(lm as int),
            decreases 2 * STRETCH_RAW - lm,
        {
            proof {
                let f = stretch_factor(2 * lm);
                assert(m * (2 * f) == (2 * m) * f) by (nonlinear_arith);
                assert(l * (2 * m) == 2 * (l * m)) by (nonlinear_arith);
                assert(l >= 1) by (nonlinear_arith)
                    requires
                        lm == l * m,
                        lm > 0,
                        l >= 0,
                        m >= 1,
                ;
            }
            m = m * 2;
            lm = lm * 2;
        }
        proof {
            assert(stretch_factor(lm as int) == 1);
            assert(m * 1 == m);
            lemma_stretched(x as int, l as int, m as int);
            lemma_stretched(y as int, l as int, m as int);
            lemma_stretched(z as int, l as int, m as int);
            assert((self.x@ * m) * (self.x@ * m) == (x * m) * (x * m)) by (nonlinear_arith)
                requires
                    x == self.x@ || x == -self.x@,
            ;
            assert((self.y@ * m) * (self.y@ * m) == (y * m) * (y * m)) by (nonlinear_arith)
                requires
                    y == self.y@ || y == -self.y@,
            ;
            assert((self.z@ * m) * (self.z@ * m) == (z * m) * (z * m)) by (nonlinear_arith)
                requires
                    z == self.z@ || z == -self.z@,
            ;
        }
        let wx: u128 = x * m;
        let wy: u128 = y * m;
        let wz: u128 = z * m;
        let len: u128 = wide_sqrt(wx * wx + wy * wy + wz * wz);
        proof {
            if l > 0 {
                lemma_floor_sqrt_at_least((wx * wx + wy * wy + wz * wz) as int, lm as int);
            } else {
                assert(wx * wx + wy * wy + wz * wz == 0) by (nonlinear_arith)
                    requires
                        wx == 0,
                        wy == 0,
                        wz == 0,
                ;
            }
        }
        (m as i128, len)
    }

    /// The vector divided by its length; the origin for the origin. No
    /// component of the result exceeds one in magnitude, and for every
    /// vector but the origin the result has length one up to rounding.
    #[verifier::when_used_as_spec(spec_unit_vector)]
    pub fn unit_vector(self) -> (r: Vec3)
        ensures
            r == self.spec_unit_vector(),
            r.within_unit(),
            self != Vec3::origin() ==> ONE_RAW * ONE_RAW - 6 * ONE_RAW - 3 < r.raw_dot(r) < ONE_RAW
                * ONE_RAW + 24,
    {
        let (m, len) = self.stretch_and_length();
        if len == 0 {
            return Vec3::zero();
        }
        proof {
            use_type_invariant(&self.x);
            use_type_invariant(&self.y);
            use_type_invariant(&self.z);
            self.lemma_unit_vector_within();
            self.lemma_unit_vector_length();
            lemma_stretched_signed(self.x@, self.largest(), m as int, len as int);
            lemma_stretched_signed(self.y@, self.largest(), m as int, len as int);
            lemma_stretched_signed(self.z@, self.largest(), m as int, len as int);
        }
        let x: i128 = (self.x.raw() as i128) * m;
        let y: i128 = (self.y.raw() as i128) * m;
        let z: i128 = (self.z.raw() as i128) * m;
        Vec3 {
            x: Fixed::saturate(rounded_quotient(x * (ONE_RAW as i128), len as i128)),
            y: Fixed::saturate(rounded_quotient(y * (ONE_RAW as i128), len as i128)),
            z: Fixed::saturate(rounded_quotient(z * (ONE_RAW as i128), len as i128)),
        }
    }

    /// A vector with each component drawn uniformly from `[0, 1)`.
    pub fn rand_vec() -> (r: Vec3)
        ensures
            r.within(Fixed::whole(0), Fixed::whole(1)),
    {
        Vec3::rand_vec_range(Fixed::zero(), Fixed::one())
    }

    /// A vector with each component drawn uniformly from `[min, max)`.
    pub fn rand_vec_range(min: Fixed, max: Fixed) -> (r: Vec3)
        requires
            min@ < max@,
        ensures
            r.within(min, max),
    {
        let mut rng = thread_generator();
        let x = uniform(&mut rng, min, max);
        let y = uniform(&mut rng, min, max);
        let z = uniform(&mut rng, min, max);
        Vec3 { x, y, z }
    }

    /// A vector inside the unit ball: the first of up to
    /// [`REJECTION_LIMIT`] draws from the cube `[-1, 1)^3` whose squared
    /// length is below one, and the origin if none is.
    pub fn rand_in_unit_sphere() -> (r: Vec3)
        ensures
            r.in_unit_ball(),
            r.within(Fixed::whole(-1), Fixed::whole(1)),
    {
        let mut tries: u32 = 0;
        while tries < REJECTION_LIMIT
            invariant
                tries <= REJECTION_LIMIT,
            decreases REJECTION_LIMIT - tries,
        {
            let p = Vec3::rand_vec_range(Fixed::one().neg(), Fixed::one());
            if Vec3::accepts_in_ball(p) {
                return p;
            }
            tries = tries + 1;
        }
        proof {
            Vec3::lemma_origin_in_ball();
        }
        Vec3::zero()
    }

    /// Whether a rejection sampler keeps `p`: its squared length is below
    /// one.
    pub fn accepts_in_ball(p: Vec3) -> (r: bool)
        ensures
            r == p.in_unit_ball(),
    {
        p.length_squared().lt(Fixed::one())
    }

    /// The dot product with the opposite vector is the opposite number.
    pub proof fn lemma_dot_negated(self, other: Vec3)
        requires
            self.wf(),
            other.wf(),
        ensures
            self.raw_dot(other.negated()) == -self.raw_dot(other),
            self.negated().raw_dot(other) == -self.raw_dot(other),
            self.spec_dot(other.negated()) == self.spec_dot(other).negated(),
            self.negated().spec_dot(other) == self.spec_dot(other).negated(),
            self.spec_dot(other.negated())@ == -self.spec_dot(other)@,
    {
        assert(self.x@ * (-other.x@) == -(self.x@ * other.x@)) by (nonlinear_arith);
        assert(self.y@ * (-other.y@) == -(self.y@ * other.y@)) by (nonlinear_arith);
        assert(self.z@ * (-other.z@) == -(self.z@ * other.z@)) by (nonlinear_arith);
        assert((-self.x@) * other.x@ == -(self.x@ * other.x@)) by (nonlinear_arith);
        assert((-self.y@) * other.y@ == -(self.y@ * other.y@)) by (nonlinear_arith);
        assert((-self.z@) * other.z@ == -(self.z@ * other.z@)) by (nonlinear_arith);
        crate::fixed::lemma_quotient_negated(self.raw_dot(other), ONE_RAW as int);
    }

    /// The rounded dot product has the sign of the exact one, or is zero.
    pub proof fn lemma_dot_sign(self, other: Vec3)
        ensures
            self.raw_dot(other) <= 0 ==> self.spec_dot(other)@ <= 0,
            self.raw_dot(other) >= 0 ==> self.spec_dot(other)@ >= 0,
    {
        crate::fixed::lemma_quotient_sign(self.raw_dot(other), ONE_RAW as int);
    }

    /// A squared length is not negative.
    pub proof fn lemma_length_squared_sign(self)
        ensures
            self.raw_dot(self) >= 0,
            self.spec_length_squared()@ >= 0,
    {
        assert(self.x@ * self.x@ >= 0) by (nonlinear_arith);
        assert(self.y@ * self.y@ >= 0) by (nonlinear_arith);
        assert(self.z@ * self.z@ >= 0) by (nonlinear_arith);
        self.lemma_dot_sign(self);
    }

    /// No component of a unit vector exceeds one in magnitude.
    pub proof fn lemma_unit_vector_within(self)
        requires
            self.wf(),
        ensures
            self.spec_unit_vector().within_unit(),
    {
        let m = self.stretch();
        let len = self.stretched_length();
        lemma_stretch_factor(self.largest());
        if len != 0 {
            let q = (self.x@ * m) * (self.x@ * m) + (self.y@ * m) * (self.y@ * m) + (self.z@ * m)
                * (self.z@ * m);
            assert((self.x@ * m) * (self.x@ * m) >= 0) by (nonlinear_arith);
            assert((self.y@ * m) * (self.y@ * m) >= 0) by (nonlinear_arith);
            assert((self.z@ * m) * (self.z@ * m) >= 0) by (nonlinear_arith);
            crate::fixed::lemma_floor_sqrt_exists(q);
            lemma_component_within(self.x@ * m, q, len);
            lemma_component_within(self.y@ * m, q, len);
            lemma_component_within(self.z@ * m, q, len);
        }
    }

    /// The unit vector of every vector but the origin has length one up
    /// to rounding: the exact sum of the squares of its raw values lies
    /// less than `6 * 2^32 + 3` below and less than 24 above `2^64`, the
    /// square of one. In real numbers the squared length lies within
    /// `1.4 * 10^-9` of one.
    pub proof fn lemma_unit_vector_length(self)
        requires
            self.wf(),
            self != Vec3::origin(),
        ensures
            ONE_RAW * ONE_RAW - 6 * ONE_RAW - 3 < self.spec_unit_vector().raw_dot(
                self.spec_unit_vector(),
            ) < ONE_RAW * ONE_RAW + 24,
            self.spec_unit_vector().within_unit(),
            self.stretched_length() >= STRETCH_RAW,
    {
        let m = self.stretch();
        let l = self.largest();
        let len = self.stretched_length();
        let u = self.spec_unit_vector();
        assert(l > 0);
        lemma_stretch_factor(l);
        let wx = self.x@ * m;
        let wy = self.y@ * m;
        let wz = self.z@ * m;
        let q = wx * wx + wy * wy + wz * wz;
        assert(wx * wx >= 0) by (nonlinear_arith);
        assert(wy * wy >= 0) by (nonlinear_arith);
        assert(wz * wz >= 0) by (nonlinear_arith);
        let big = l * m;
        assert(big * big == wx * wx || big * big == wy * wy || big * big == wz * wz)
            by (nonlinear_arith)
            requires
                big == l * m,
                wx == self.x@ * m,
                wy == self.y@ * m,
                wz == self.z@ * m,
                l == self.x@ || l == -self.x@ || l == self.y@ || l == -self.y@ || l == self.z@ || l
                    == -self.z@,
        ;
        crate::fixed::lemma_floor_sqrt_exists(q);
        lemma_floor_sqrt_at_least(q, big);
        lemma_component_within(wx, q, len);
        lemma_component_within(wy, q, len);
        lemma_component_within(wz, q, len);
        let vx = lemma_unit_component(wx, len);
        let vy = lemma_unit_component(wy, len);
        let vz = lemma_unit_component(wz, len);
        assert(u.x@ == quotient(wx * ONE_RAW, len));
        assert(u.y@ == quotient(wy * ONE_RAW, len));
        assert(u.z@ == quotient(wz * ONE_RAW, len));
        let sum = vx * vx + vy * vy + vz * vz;
        assert(u.raw_dot(u) == sum);
        let len2 = len * len;
        let one2 = ONE_RAW * ONE_RAW;
        assert(one2 == 0x1_0000_0000_0000_0000int) by (nonlinear_arith)
            requires
                one2 == ONE_RAW * ONE_RAW,
                ONE_RAW == 0x1_0000_0000,
        ;
        assert(q < len2 + 2 * len + 1) by (nonlinear_arith)
            requires
                q < (len + 1) * (len + 1),
                len2 == len * len,
        ;
        assert(len2 >= 0x2000_0000_0000_0000 * len) by (nonlinear_arith)
            requires
                len >= 0x2000_0000_0000_0000,
                len2 == len * len,
        ;
        assert(sum * len2 == (vx * vx) * len2 + (vy * vy) * len2 + (vz * vz) * len2)
            by (nonlinear_arith)
            requires
                sum == vx * vx + vy * vy + vz * vz,
        ;
        assert(q * one2 == (wx * wx) * one2 + (wy * wy) * one2 + (wz * wz) * one2)
            by (nonlinear_arith)
            requires
                q == wx * wx + wy * wy + wz * wz,
        ;
        assert(sum * len2 <= q * one2);
        if sum >= one2 + 24 {
            assert(sum * len2 >= (one2 + 24) * len2) by (nonlinear_arith)
                requires
                    sum >= one2 + 24,
                    len2 >= 0,
            ;
            assert(false);
        }
        let over = (vx + 1) * (vx + 1) + (vy + 1) * (vy + 1) + (vz + 1) * (vz + 1);
        assert(over * len2 == ((vx + 1) * (vx + 1)) * len2 + ((vy + 1) * (vy + 1)) * len2 + ((vz
            + 1) * (vz + 1)) * len2) by (nonlinear_arith)
            requires
                over == (vx + 1) * (vx + 1) + (vy + 1) * (vy + 1) + (vz + 1) * (vz + 1),
        ;
        assert(over * len2 > q * one2);
        assert(q * one2 >= len2 * one2) by (nonlinear_arith)
            requires
                q >= len2,
                one2 >= 0,
        ;
        assert(over > one2) by (nonlinear_arith)
            requires
                over * len2 > len2 * one2,
                len2 > 0,
        ;
        assert(over == sum + 2 * (vx + vy + vz) + 3) by (nonlinear_arith)
            requires
                over == (vx + 1) * (vx + 1) + (vy + 1) * (vy + 1) + (vz + 1) * (vz + 1),
                sum == vx * vx + vy * vy + vz * vz,
        ;
    }

    /// The square of a dot product is at most the product of the squared
    /// lengths.
    pub proof fn lemma_dot_bound(self, other: Vec3)
        ensures
            self.raw_dot(other) * self.raw_dot(other) <= self.raw_dot(self) * other.raw_dot(other),
    {
        let a = self.x@;
        let b = self.y@;
        let c = self.z@;
        let x = other.x@;
        let y = other.y@;
        let z = other.z@;
        let u = a * x;
        let v = b * y;
        let w = c * z;
        let p = a * y - b * x;
        let q = a * z - c * x;
        let r = b * z - c * y;
        let uv = lemma_crossed(a, x, b, y);
        let uw = lemma_crossed(a, x, c, z);
        let vw = lemma_crossed(b, y, c, z);
        let aa_xx = lemma_crossed(a, x, a, x);
        let bb_yy = lemma_crossed(b, y, b, y);
        let cc_zz = lemma_crossed(c, z, c, z);
        let aa_yy = lemma_crossed(a, y, a, y);
        let aa_zz = lemma_crossed(a, z, a, z);
        let bb_xx = lemma_crossed(b, x, b, x);
        let bb_zz = lemma_crossed(b, z, b, z);
        let cc_xx = lemma_crossed(c, x, c, x);
        let cc_yy = lemma_crossed(c, y, c, y);
        let ay = a * y;
        let bx = b * x;
        let az = a * z;
        let cx = c * x;
        let bz = b * z;
        let cy = c * y;
        assert(ay * bx == uv) by {
            let t = lemma_crossed(a, y, b, x);
            assert((a * b) * (y * x) == (a * b) * (x * y)) by (nonlinear_arith);
        }
        assert(az * cx == uw) by {
            let t = lemma_crossed(a, z, c, x);
            assert((a * c) * (z * x) == (a * c) * (x * z)) by (nonlinear_arith);
        }
        assert(bz * cy == vw) by {
            let t = lemma_crossed(b, z, c, y);
            assert((b * c) * (z * y) == (b * c) * (y * z)) by (nonlinear_arith);
        }
        assert(p * p == aa_yy - 2 * uv + bb_xx) by (nonlinear_arith)
            requires
                p == ay - bx,
                ay * ay == aa_yy,
                bx * bx == bb_xx,
                ay * bx == uv,
        ;
        assert(q * q == aa_zz - 2 * uw + cc_xx) by (nonlinear_arith)
            requires
                q == az - cx,
                az * az == aa_zz,
                cx * cx == cc_xx,
                az * cx == uw,
        ;
        assert(r * r == bb_zz - 2 * vw + cc_yy) by (nonlinear_arith)
            requires
                r == bz - cy,
                bz * bz == bb_zz,
                cy * cy == cc_yy,
                bz * cy == vw,
        ;
        assert(p * p >= 0) by (nonlinear_arith);
        assert(q * q >= 0) by (nonlinear_arith);
        assert(r * r >= 0) by (nonlinear_arith);
        let dot = u + v + w;
        assert(dot * dot == aa_xx + bb_yy + cc_zz + 2 * uv + 2 * uw + 2 * vw) by (nonlinear_arith)
            requires
                dot == u + v + w,
                u * u == aa_xx,
                v * v == bb_yy,
                w * w == cc_zz,
                u * v == uv,
                u * w == uw,
                v * w == vw,
        ;
        let a2 = a * a;
        let b2 = b * b;
        let c2 = c * c;
        let x2 = x * x;
        let y2 = y * y;
        let z2 = z * z;
        let sum = x2 + y2 + z2;
        assert((a2 + b2 + c2) * sum == a2 * sum + b2 * sum + c2 * sum) by (nonlinear_arith);
        assert(a2 * sum == a2 * x2 + a2 * y2 + a2 * z2) by (nonlinear_arith)
            requires
                sum == x2 + y2 + z2,
        ;
        assert(b2 * sum == b2 * x2 + b2 * y2 + b2 * z2) by (nonlinear_arith)
            requires
                sum == x2 + y2 + z2,
        ;
        assert(c2 * sum == c2 * x2 + c2 * y2 + c2 * z2) by (nonlinear_arith)
            requires
                sum == x2 + y2 + z2,
        ;
    }

    /// Scaling by zero gives the origin.
    pub proof fn lemma_scaled_zero(self)
        ensures
            self.scaled(Fixed::whole(0)) == Vec3::origin(),
    {
        self.x.lemma_times_zero();
        self.y.lemma_times_zero();
        self.z.lemma_times_zero();
    }

    /// The origin lies in the unit ball.
    pub proof fn lemma_origin_in_ball()
        ensures
            Vec3::origin().in_unit_ball(),
            Vec3::origin().within(Fixed::whole(-1), Fixed::whole(1)),
            Vec3::origin().spec_length_squared() == Fixed::whole(0),
    {
        let o = Vec3::origin();
        assert(o.x@ * o.x@ == 0) by (nonlinear_arith)
            requires
                o.x@ == 0,
        ;
        assert(o.raw_dot(o) == 0);
    }

    /// A vector of the unit ball, divided by its length.
    pub fn rand_unit_vec() -> (r: Vec3)
        ensures
            exists|p: Vec3| p.in_unit_ball() && r == #[trigger] p.spec_unit_vector(),
    {
        let p = Vec3::rand_in_unit_sphere();
        p.unit_vector()
    }

    /// Whether every component is below `10^-8` in magnitude.
    #[verifier::when_used_as_spec(spec_near_zero)]
    pub fn near_zero(self) -> (r: bool)
        ensures
            r == self.spec_near_zero(),
    {
        let s = Fixed::from_raw(NEAR_ZERO_RAW);
        self.x.abs().lt(s) && self.y.abs().lt(s) && self.z.abs().lt(s)
    }
}

impl Add<Vec3> for Vec3 {
    type Output = Vec3;

    fn add(self, rhs: Vec3) -> (r: Vec3) {
        Vec3 { x: self.x + rhs.x, y: self.y + rhs.y, z: self.z + rhs.z }
    }
}

impl vstd::std_specs::ops::AddSpecImpl<Vec3> for Vec3 {
    open spec fn obeys_add_spec() -> bool {
        true
    }

    open spec fn add_req(self, rhs: Vec3) -> bool {
        true
    }

    open spec fn add_spec(self, rhs: Vec3) -> Vec3 {
        self.plus(rhs)
    }
}

impl Sub<Vec3> for Vec3 {
    type Output = Vec3;

    fn sub(self, rhs: Vec3) -> (r: Vec3) {
        Vec3 { x: self.x - rhs.x, y: self.y - rhs.y, z: self.z - rhs.z }
    }
}

impl vstd::std_specs::ops::SubSpecImpl<Vec3> for Vec3 {
    open spec fn obeys_sub_spec() -> bool {
        true
    }

    open spec fn sub_req(self, rhs: Vec3) -> bool {
        true
    }

    open spec fn sub_spec(self, rhs: Vec3) -> Vec3 {
        self.minus(rhs)
    }
}

impl Neg for Vec3 {
    type Output = Vec3;

    fn neg(self) -> (r: Vec3) {
        Vec3 { x: self.x.neg(), y: self.y.neg(), z: self.z.neg() }
    }
}

impl vstd::std_specs::ops::NegSpecImpl for Vec3 {
    open spec fn obeys_neg_spec() -> bool {
        true
    }

    open spec fn neg_req(self) -> bool {
        true
    }

    open spec fn neg_spec(self) -> Vec3 {
        self.negated()
    }
}

/// Scaling by a number.
impl Mul<Fixed> for Vec3 {
    type Output = Vec3;

    fn mul(self, rhs: Fixed) -> (r: Vec3) {
        Vec3 { x: self.x * rhs, y: self.y * rhs, z: self.z * rhs }
    }
}

impl vstd::std_specs::ops::MulSpecImpl<Fixed> for Vec3 {
    open spec fn obeys_mul_spec() -> bool {
        true
    }

    open spec fn mul_req(self, rhs: Fixed) -> bool {
        true
    }

    open spec fn mul_spec(self, rhs: Fixed) -> Vec3 {
        self.scaled(rhs)
    }
}

/// The product component by component.
impl Mul<Vec3> for Vec3 {
    type Output = Vec3;

    fn mul(self, rhs: Vec3) -> (r: Vec3) {
        Vec3 { x: self.x * rhs.x, y: self.y * rhs.y, z: self.z * rhs.z }
    }
}

impl vstd::std_specs::ops::MulSpecImpl<Vec3> for Vec3 {
    open spec fn obeys_mul_spec() -> bool {
        true
    }

    open spec fn mul_req(self, rhs: Vec3) -> bool {
        true
    }

    open spec fn mul_spec(self, rhs: Vec3) -> Vec3 {
        self.times(rhs)
    }
}

/// Scaling, with the number on the left.
impl Mul<Vec3> for Fixed {
    type Output = Vec3;

    fn mul(self, rhs: Vec3) -> (r: Vec3) {
        rhs * self
    }
}

impl vstd::std_specs::ops::MulSpecImpl<Vec3> for Fixed {
    open spec fn obeys_mul_spec() -> bool {
        true
    }

    open spec fn mul_req(self, rhs: Vec3) -> bool {
        true
    }

    open spec fn mul_spec(self, rhs: Vec3) -> Vec3 {
        rhs.scaled(self)
    }
}

/// Division by a number.
impl Div<Fixed> for Vec3 {
    type Output = Vec3;

    fn div(self, rhs: Fixed) -> (r: Vec3) {
        Vec3 { x: self.x / rhs, y: self.y / rhs, z: self.z / rhs }
    }
}

impl vstd::std_specs::ops::DivSpecImpl<Fixed> for Vec3 {
    open spec fn obeys_div_spec() -> bool {
        true
    }

    open spec fn div_req(self, rhs: Fixed) -> bool {
        true
    }

    open spec fn div_spec(self, rhs: Fixed) -> Vec3 {
        self.divided(rhs)
    }
}

/// The quotient component by component.
impl Div<Vec3> for Vec3 {
    type Output = Vec3;

    fn div(self, rhs: Vec3) -> (r: Vec3) {
        Vec3 { x: self.x / rhs.x, y: self.y / rhs.y, z: self.z / rhs.z }
    }
}

impl vstd::std_specs::ops::DivSpecImpl<Vec3> for Vec3 {
    open spec fn obeys_div_spec() -> bool {
        true
    }

    open spec fn div_req(self, rhs: Vec3) -> bool {
        true
    }

    open spec fn div_spec(self, rhs: Vec3) -> Vec3 {
        self.over(rhs)
    }
}

/// Adding in place.
impl AddAssign for Vec3 {
    fn add_assign(&mut self, other: Vec3)
        ensures
            *final(self) == old(self).plus(other),
    {
        *self = *self + other;
    }
}

/// Scaling in place.
impl MulAssign<Fixed> for Vec3 {
    fn mul_assign(&mut self, rhs: Fixed)
        ensures
            *final(self) == old(self).scaled(rhs),
    {
        *self = *self * rhs;
    }
}

} // verus!
