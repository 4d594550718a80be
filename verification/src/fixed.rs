//! Saturating fixed-point reals.
//!
//! A [`Fixed`] stands for the real number `raw / 2^32`. Every operation is
//! the exact operation on integers followed by rounding toward zero and by
//! clamping into the symmetric range `[-MAX_RAW, MAX_RAW]`, so every
//! operation is total: a result too large to hold sticks at the end of the
//! range, and a division by zero gives the end of the range on the side of
//! the numerator's sign.
use core::ops::{Add, Div, Mul, Neg, Sub};
use vstd::prelude::*;

verus! {

/// The raw value of the real number one.
pub const ONE_RAW: i64 = 0x1_0000_0000;

/// The largest raw value; the smallest is its negation.
pub const MAX_RAW: i64 = 0x7fff_ffff_ffff_ffff;

/// `v` brought into the range of raw values.
pub open spec fn clamp(v: int) -> int {
    if v > MAX_RAW {
        MAX_RAW as int
    } else if v < -MAX_RAW {
        -MAX_RAW
    } else {
        v
    }
}

/// The quotient of `a` by `b`, rounded toward zero.
pub open spec fn quotient(a: int, b: int) -> int
    recommends
        b != 0,
{
    if a >= 0 && b > 0 {
        a / b
    } else if a < 0 && b > 0 {
        -((-a) / b)
    } else if a >= 0 {
        -(a / (-b))
    } else {
        (-a) / (-b)
    }
}

/// Whether `r` is the integer square root of `n`, rounded down.
pub open spec fn is_floor_sqrt(n: int, r: int) -> bool {
    r >= 0 && r * r <= n && n < (r + 1) * (r + 1)
}

/// The integer square root of `n`, rounded down; zero for a negative `n`.
pub open spec fn floor_sqrt(n: int) -> int {
    if n <= 0 {
        0
    } else {
        choose|r: int| is_floor_sqrt(n, r)
    }
}

/// At most one integer is the rounded-down square root of `n`.
pub proof fn lemma_floor_sqrt_unique(n: int, r: int, s: int)
    requires
        is_floor_sqrt(n, r),
        is_floor_sqrt(n, s),
    ensures
        r == s,
{
    if r < s {
        assert((r + 1) * (r + 1) <= s * s) by (nonlinear_arith)
            requires
                0 <= r + 1 <= s,
        ;
    } else if s < r {
        assert((s + 1) * (s + 1) <= r * r) by (nonlinear_arith)
            requires
                0 <= s + 1 <= r,
        ;
    }
}

/// A real number in fixed point, with 32 binary places.
#[derive(Clone, Copy, PartialEq, Eq, Structural, Debug)]
pub struct Fixed {
    pub(crate) raw: i64,
}

/// The rounded-down square root of `n`, found by bisection.
pub(crate) fn wide_sqrt(n: u128) -> (r: u128)
    ensures
        is_floor_sqrt(n as int, r as int),
        r == floor_sqrt(n as int),
        r < 0x1_0000_0000_0000_0000u128,
{
    let mut lo: u128 = 0;
    let mut hi: u128 = 0x1_0000_0000_0000_0000;
    assert(0x1_0000_0000_0000_0000int * 0x1_0000_0000_0000_0000int
        == 0x1_0000_0000_0000_0000_0000_0000_0000_0000int) by (nonlinear_arith);
    while hi - lo > 1
        invariant
            lo < hi <= 0x1_0000_0000_0000_0000u128,
            lo * lo <= n,
            n < hi * hi,
        decreases hi - lo,
    {
        let mid: u128 = lo + (hi - lo) / 2;
        assert(mid * mid < 0x1_0000_0000_0000_0000_0000_0000_0000_0000int) by (nonlinear_arith)
            requires
                0 <= mid < 0x1_0000_0000_0000_0000int,
        ;
        let sq: u128 = mid * mid;
        if sq <= n {
            lo = mid;
        } else {
            hi = mid;
        }
    }
    proof {
        if n > 0 {
            lemma_floor_sqrt_exists(n as int);
            lemma_floor_sqrt_unique(n as int, lo as int, floor_sqrt(n as int));
        } else {
            assert(lo * lo <= 0);
            assert(lo == 0) by (nonlinear_arith)
                requires
                    lo * lo <= 0,
                    lo >= 0,
            ;
        }
    }
    lo
}

/// A number whose square is at most `n` is at most the square root of `n`.
pub proof fn lemma_floor_sqrt_at_least(n: int, k: int)
    requires
        0 <= k,
        k * k <= n,
    ensures
        k <= floor_sqrt(n),
{
    lemma_floor_sqrt_exists(n);
    let r = floor_sqrt(n);
    if r < k {
        assert((r + 1) * (r + 1) <= k * k) by (nonlinear_arith)
            requires
                0 <= r + 1 <= k,
        ;
    }
}

/// Calls `num::clamp` on raw values: `min` for an input below `min`, `max`
/// for one above `max`, and else the input. The call panics in a debug
/// build unless `min <= max`, which `requires` asks for.
#[verifier::external_body]
fn bounded(input: i64, min: i64, max: i64) -> (r: i64)
    requires
        min <= max,
    ensures
        r == if input < min {
            min
        } else if input > max {
            max
        } else {
            input
        },
{
    num::clamp(input, min, max)
}

/// The quotient rounded toward zero, from divisions of magnitudes only.
pub(crate) fn rounded_quotient(a: i128, b: i128) -> (q: i128)
    requires
        b != 0,
        a > i128::MIN,
        b > i128::MIN,
    ensures
        q == quotient(a as int, b as int),
{
    if a >= 0 && b > 0 {
        a / b
    } else if a < 0 && b > 0 {
        -((-a) / b)
    } else if a >= 0 {
        -(a / (-b))
    } else {
        (-a) / (-b)
    }
}

impl Fixed {
    /// The raw value is never `i64::MIN`, so that the range is symmetric.
    #[verifier::type_invariant]
    pub open(crate) spec fn wf(self) -> bool {
        self.raw > i64::MIN
    }

    /// The raw value as a mathematical integer: the real number times `2^32`.
    pub open(crate) spec fn view(self) -> int {
        self.raw as int
    }

    /// The number with raw value `clamp(v)`.
    pub open(crate) spec fn of(v: int) -> Fixed {
        Fixed { raw: clamp(v) as i64 }
    }

    /// The whole number `n`.
    pub open spec fn whole(n: int) -> Fixed {
        Fixed::of(n * ONE_RAW)
    }

    /// The fraction `num / den`, rounded toward zero.
    pub open spec fn ratio(num: int, den: int) -> Fixed {
        Fixed::of(num).over(Fixed::of(den))
    }

    /// The whole part, rounded toward zero.
    pub open spec fn whole_part(self) -> int {
        quotient(self@, ONE_RAW as int)
    }

    /// The sum, clamped.
    pub open spec fn plus(self, rhs: Fixed) -> Fixed {
        Fixed::of(self@ + rhs@)
    }

    /// The difference, clamped.
    pub open spec fn minus(self, rhs: Fixed) -> Fixed {
        Fixed::of(self@ - rhs@)
    }

    /// The negation.
    pub open spec fn negated(self) -> Fixed {
        Fixed::of(-self@)
    }

    /// The product, rounded toward zero and clamped.
    pub open spec fn times(self, rhs: Fixed) -> Fixed {
        Fixed::of(quotient(self@ * rhs@, ONE_RAW as int))
    }

    /// The quotient, rounded toward zero and clamped. By zero: the end of
    /// the range on the side of the numerator's sign, and zero for zero.
    pub open spec fn over(self, rhs: Fixed) -> Fixed {
        if rhs@ == 0 {
            if self@ > 0 {
                Fixed::of(MAX_RAW as int)
            } else if self@ < 0 {
                Fixed::of(-MAX_RAW)
            } else {
                Fixed::whole(0)
            }
        } else {
            Fixed::of(quotient(self@ * ONE_RAW, rhs@))
        }
    }

    /// The square root, rounded down; zero for a negative number.
    pub open spec fn root(self) -> Fixed {
        Fixed::of(floor_sqrt(self@ * ONE_RAW))
    }

    /// The absolute value.
    pub open spec fn magnitude(self) -> Fixed {
        if self@ < 0 {
            self.negated()
        } else {
            self
        }
    }

    /// The smaller of two numbers.
    pub open spec fn lesser(self, rhs: Fixed) -> Fixed {
        if rhs@ < self@ {
            rhs
        } else {
            self
        }
    }

    /// The number brought into `[0, 1]`.
    pub open spec fn unit_clamped(self) -> Fixed {
        if self@ < 0 {
            Fixed::whole(0)
        } else if self@ > ONE_RAW {
            Fixed::whole(1)
        } else {
            self
        }
    }

    /// The number with raw value `v`, brought into the range.
    pub(crate) fn saturate(v: i128) -> (r: Fixed)
        ensures
            r == Fixed::of(v as int),
    {
        if v > MAX_RAW as i128 {
            Fixed { raw: MAX_RAW }
        } else if v < -(MAX_RAW as i128) {
            Fixed { raw: -MAX_RAW }
        } else {
            Fixed { raw: v as i64 }
        }
    }

    /// The number with the given raw value; `i64::MIN` gives the smallest
    /// number.
    pub fn from_raw(raw: i64) -> (r: Fixed)
        ensures
            r == Fixed::of(raw as int),
    {
        Fixed::saturate(raw as i128)
    }

    /// The raw value.
    pub fn raw(self) -> (r: i64)
        ensures
            r == self@,
            r > i64::MIN,
    {
        proof {
            use_type_invariant(&self);
        }
        self.raw
    }

    /// The whole number `n`.
    pub fn from_int(n: i32) -> (r: Fixed)
        ensures
            r == Fixed::whole(n as int),
    {
        assert(-0x8000_0000_0000_0000 <= n * ONE_RAW <= 0x8000_0000_0000_0000) by (nonlinear_arith)
            requires
                -0x8000_0000 <= n <= 0x8000_0000,
                ONE_RAW == 0x1_0000_0000,
        ;
        Fixed::saturate((n as i128) * (ONE_RAW as i128))
    }

    /// The whole number `n`; one too large to hold gives the largest
    /// number.
    pub fn from_u32(n: u32) -> (r: Fixed)
        ensures
            r == Fixed::whole(n as int),
    {
        assert(0 <= n * ONE_RAW <= 0x1_0000_0000_0000_0000) by (nonlinear_arith)
            requires
                0 <= n <= 0x1_0000_0000,
                ONE_RAW == 0x1_0000_0000,
        ;
        Fixed::saturate((n as i128) * (ONE_RAW as i128))
    }

    /// The whole part, rounded toward zero.
    pub fn trunc(self) -> (n: i64)
        ensures
            n == self.whole_part(),
            -0x8000_0000 <= n <= 0x8000_0000,
    {
        self.raw / ONE_RAW
    }

    /// The fraction `num / den`, rounded toward zero.
    pub fn from_ratio(num: i64, den: i64) -> (r: Fixed)
        ensures
            r == Fixed::ratio(num as int, den as int),
    {
        Fixed::from_raw(num) / Fixed::from_raw(den)
    }

    /// Zero.
    pub fn zero() -> (r: Fixed)
        ensures
            r == Fixed::whole(0),
            r@ == 0,
    {
        Fixed { raw: 0 }
    }

    /// One.
    pub fn one() -> (r: Fixed)
        ensures
            r == Fixed::whole(1),
            r@ == ONE_RAW,
    {
        Fixed { raw: ONE_RAW }
    }

    /// The largest number, which stands for an unbounded limit.
    pub fn max_value() -> (r: Fixed)
        ensures
            r == Fixed::of(MAX_RAW as int),
            r@ == MAX_RAW,
    {
        Fixed { raw: MAX_RAW }
    }

    /// The square root, rounded down; zero for a negative number.
    pub fn sqrt(self) -> (r: Fixed)
        ensures
            r == self.root(),
            self@ > 0 ==> is_floor_sqrt(self@ * ONE_RAW, r@),
            r@ >= 0,
    {
        if self.raw <= 0 {
            assert(self@ * ONE_RAW <= 0) by (nonlinear_arith)
                requires
                    self@ <= 0,
                    ONE_RAW > 0,
            ;
            Fixed { raw: 0 }
        } else {
            assert(0 < self@ * ONE_RAW < 0x8000_0000_0000_0000_0000_0000) by (nonlinear_arith)
                requires
                    0 < self@ < 0x8000_0000_0000_0000,
                    ONE_RAW == 0x1_0000_0000,
            ;
            let n: u128 = (self.raw as u128) * (ONE_RAW as u128);
            let s: u128 = wide_sqrt(n);
            proof {
                if s >= 0x1_0000_0000_0000 {
                    assert(s * s >= 0x1_0000_0000_0000_0000_0000_0000) by (nonlinear_arith)
                        requires
                            s >= 0x1_0000_0000_0000,
                    ;
                }
            }
            Fixed { raw: s as i64 }
        }
    }

    /// The absolute value.
    pub fn abs(self) -> (r: Fixed)
        ensures
            r == self.magnitude(),
            r@ >= 0,
            r@ == self@ || r@ == -self@,
    {
        if self.raw < 0 {
            proof {
                use_type_invariant(&self);
            }
            self.neg()
        } else {
            self
        }
    }

    /// The smaller of two numbers.
    pub fn min(self, rhs: Fixed) -> (r: Fixed)
        ensures
            r == self.lesser(rhs),
    {
        if rhs.raw < self.raw {
            rhs
        } else {
            self
        }
    }

    /// The number brought into `[0, 1]`.
    pub fn clamp_unit(self) -> (r: Fixed)
        ensures
            r == self.unit_clamped(),
            0 <= r@ <= ONE_RAW,
    {
        proof {
            use_type_invariant(&self);
        }
        Fixed { raw: bounded(self.raw, 0, ONE_RAW) }
    }

    /// Whether the number is less than `rhs`.
    pub fn lt(self, rhs: Fixed) -> (r: bool)
        ensures
            r == (self@ < rhs@),
    {
        self.raw < rhs.raw
    }

    /// Whether the number is at most `rhs`.
    pub fn le(self, rhs: Fixed) -> (r: bool)
        ensures
            r == (self@ <= rhs@),
    {
        self.raw <= rhs.raw
    }

    /// Whether the number is greater than `rhs`.
    pub fn gt(self, rhs: Fixed) -> (r: bool)
        ensures
            r == (self@ > rhs@),
    {
        self.raw > rhs.raw
    }

    /// Whether the number is at least `rhs`.
    pub fn ge(self, rhs: Fixed) -> (r: bool)
        ensures
            r == (self@ >= rhs@),
    {
        self.raw >= rhs.raw
    }
}

/// The rounded quotient of the opposite is the opposite of the quotient.
pub proof fn lemma_quotient_negated(a: int, b: int)
    requires
        b != 0,
    ensures
        quotient(-a, b) == -quotient(a, b),
{
}

/// The rounded quotient by a positive number is monotone in the numerator.
pub proof fn lemma_quotient_monotone(a: int, b: int, d: int)
    requires
        a <= b,
        d > 0,
    ensures
        quotient(a, d) <= quotient(b, d),
{
    if a >= 0 {
        vstd::arithmetic::div_mod::lemma_div_is_ordered(a, b, d);
    } else if b < 0 {
        vstd::arithmetic::div_mod::lemma_div_is_ordered(-b, -a, d);
    } else {
        vstd::arithmetic::div_mod::lemma_div_pos_is_pos(-a, d);
        vstd::arithmetic::div_mod::lemma_div_pos_is_pos(b, d);
    }
}

/// What a quotient by one loses: less than one.
pub proof fn lemma_quotient_error(x: int) -> (e: int)
    ensures
        e == x - ONE_RAW * quotient(x, ONE_RAW as int),
        -ONE_RAW < e < ONE_RAW,
        x >= 0 ==> e >= 0,
        x <= 0 ==> e <= 0,
{
    if x >= 0 {
        vstd::arithmetic::div_mod::lemma_fundamental_div_mod(x, ONE_RAW as int);
        vstd::arithmetic::div_mod::lemma_mod_bound(x, ONE_RAW as int);
    } else {
        vstd::arithmetic::div_mod::lemma_fundamental_div_mod(-x, ONE_RAW as int);
        vstd::arithmetic::div_mod::lemma_mod_bound(-x, ONE_RAW as int);
    }
    x - ONE_RAW * quotient(x, ONE_RAW as int)
}

/// The rounded quotient has the sign of the exact one, or is zero.
pub proof fn lemma_quotient_sign(a: int, d: int)
    requires
        d > 0,
    ensures
        a >= 0 ==> quotient(a, d) >= 0,
        a <= 0 ==> quotient(a, d) <= 0,
        a >= 0 ==> quotient(a, d) <= a,
{
    if a >= 0 {
        vstd::arithmetic::div_mod::lemma_div_pos_is_pos(a, d);
        vstd::arithmetic::div_mod::lemma_div_nonincreasing(a, d);
    } else {
        vstd::arithmetic::div_mod::lemma_div_pos_is_pos(-a, d);
    }
}

impl Fixed {
    /// Zero times anything is zero.
    pub proof fn lemma_times_zero(self)
        ensures
            self.times(Fixed::whole(0)) == Fixed::whole(0),
            Fixed::whole(0).times(self) == Fixed::whole(0),
    {
        assert(self@ * 0 == 0) by (nonlinear_arith);
        assert(0 * self@ == 0) by (nonlinear_arith);
    }

    /// One is neutral for the product.
    pub proof fn lemma_times_one(self)
        requires
            self.wf(),
        ensures
            self.times(Fixed::whole(1)) == self,
            Fixed::whole(1).times(self) == self,
    {
        let p = self@ * ONE_RAW;
        assert(ONE_RAW * self@ == p) by (nonlinear_arith)
            requires
                p == self@ * ONE_RAW,
        ;
        if self@ >= 0 {
            vstd::arithmetic::div_mod::lemma_div_multiples_vanish(self@, ONE_RAW as int);
            assert(p >= 0) by (nonlinear_arith)
                requires
                    self@ >= 0,
                    p == self@ * ONE_RAW,
            ;
        } else {
            vstd::arithmetic::div_mod::lemma_div_multiples_vanish(-self@, ONE_RAW as int);
            assert(-p == (-self@) * ONE_RAW && p < 0) by (nonlinear_arith)
                requires
                    self@ < 0,
                    p == self@ * ONE_RAW,
            ;
        }
    }

    /// Dividing by one changes nothing.
    pub proof fn lemma_over_one(self)
        requires
            self.wf(),
        ensures
            self.over(Fixed::whole(1)) == self,
    {
        self.lemma_times_one();
    }

    /// Zero is neutral for the sum and the difference.
    pub proof fn lemma_plus_zero(self)
        requires
            self.wf(),
        ensures
            self.plus(Fixed::whole(0)) == self,
            Fixed::whole(0).plus(self) == self,
            self.minus(Fixed::whole(0)) == self,
    {
    }

    /// The product with an opposite is the opposite of the product.
    pub proof fn lemma_times_negated(self, rhs: Fixed)
        requires
            self.wf(),
            rhs.wf(),
        ensures
            self.times(rhs.negated()) == self.times(rhs).negated(),
            self.negated().times(rhs) == self.times(rhs).negated(),
    {
        let p = self@ * rhs@;
        assert(self@ * (-rhs@) == -p && (-self@) * rhs@ == -p) by (nonlinear_arith)
            requires
                p == self@ * rhs@,
        ;
        lemma_quotient_negated(p, ONE_RAW as int);
    }

    /// The product of two numbers of `[0, 1]` lies in `[0, 1]`, and is at
    /// most either factor.
    pub proof fn lemma_times_unit(self, rhs: Fixed)
        requires
            0 <= self@ <= ONE_RAW,
            0 <= rhs@,
        ensures
            0 <= self.times(rhs)@ <= rhs@,
    {
        let p = self@ * rhs@;
        let m = rhs@ * ONE_RAW;
        assert(0 <= p <= m) by (nonlinear_arith)
            requires
                p == self@ * rhs@,
                m == rhs@ * ONE_RAW,
                0 <= self@ <= ONE_RAW,
                0 <= rhs@,
        ;
        vstd::arithmetic::div_mod::lemma_div_is_ordered(p, m, ONE_RAW as int);
        vstd::arithmetic::div_mod::lemma_div_multiples_vanish(rhs@, ONE_RAW as int);
        lemma_quotient_sign(p, ONE_RAW as int);
    }

}

/// Every number that is not negative has a rounded-down square root.
pub proof fn lemma_floor_sqrt_exists(n: int)
    requires
        n >= 0,
    ensures
        is_floor_sqrt(n, floor_sqrt(n)),
    decreases n,
{
    if n == 0 {
        assert(is_floor_sqrt(0, 0));
    } else {
        lemma_floor_sqrt_exists(n - 1);
        let r = floor_sqrt(n - 1);
        if n - 1 == 0 {
            assert(r == 0);
        }
        assert(is_floor_sqrt(n - 1, r));
        if n < (r + 1) * (r + 1) {
            assert(is_floor_sqrt(n, r));
        } else {
            assert((r + 2) * (r + 2) > (r + 1) * (r + 1)) by (nonlinear_arith)
                requires
                    r >= 0,
            ;
            assert(is_floor_sqrt(n, r + 1));
        }
    }
}


impl Add<Fixed> for Fixed {
    type Output = Fixed;

    fn add(self, rhs: Fixed) -> (r: Fixed) {
        Fixed::saturate(self.raw as i128 + rhs.raw as i128)
    }
}

impl vstd::std_specs::ops::AddSpecImpl<Fixed> for Fixed {
    open spec fn obeys_add_spec() -> bool {
        true
    }

    open spec fn add_req(self, rhs: Fixed) -> bool {
        true
    }

    open spec fn add_spec(self, rhs: Fixed) -> Fixed {
        self.plus(rhs)
    }
}

impl Sub<Fixed> for Fixed {
    type Output = Fixed;

    fn sub(self, rhs: Fixed) -> (r: Fixed) {
        Fixed::saturate(self.raw as i128 - rhs.raw as i128)
    }
}

impl vstd::std_specs::ops::SubSpecImpl<Fixed> for Fixed {
    open spec fn obeys_sub_spec() -> bool {
        true
    }

    open spec fn sub_req(self, rhs: Fixed) -> bool {
        true
    }

    open spec fn sub_spec(self, rhs: Fixed) -> Fixed {
        self.minus(rhs)
    }
}

impl Mul<Fixed> for Fixed {
    type Output = Fixed;

    fn mul(self, rhs: Fixed) -> (r: Fixed) {
        let a: i128 = self.raw as i128;
        let b: i128 = rhs.raw as i128;
        assert(-0x4000_0000_0000_0000_0000_0000_0000_0000 <= a * b
            <= 0x4000_0000_0000_0000_0000_0000_0000_0000) by (nonlinear_arith)
            requires
                -0x8000_0000_0000_0000 <= a <= 0x8000_0000_0000_0000,
                -0x8000_0000_0000_0000 <= b <= 0x8000_0000_0000_0000,
        ;
        Fixed::saturate(rounded_quotient(a * b, ONE_RAW as i128))
    }
}

impl vstd::std_specs::ops::MulSpecImpl<Fixed> for Fixed {
    open spec fn obeys_mul_spec() -> bool {
        true
    }

    open spec fn mul_req(self, rhs: Fixed) -> bool {
        true
    }

    open spec fn mul_spec(self, rhs: Fixed) -> Fixed {
        self.times(rhs)
    }
}

impl Div<Fixed> for Fixed {
    type Output = Fixed;

    fn div(self, rhs: Fixed) -> (r: Fixed) {
        if rhs.raw == 0 {
            if self.raw > 0 {
                Fixed { raw: MAX_RAW }
            } else if self.raw < 0 {
                Fixed { raw: -MAX_RAW }
            } else {
                Fixed { raw: 0 }
            }
        } else {
            let a: i128 = self.raw as i128;
            assert(-0x8000_0000_0000_0000_0000_0000 <= a * ONE_RAW
                <= 0x8000_0000_0000_0000_0000_0000) by (nonlinear_arith)
                requires
                    -0x8000_0000_0000_0000 <= a <= 0x8000_0000_0000_0000,
                    ONE_RAW == 0x1_0000_0000,
            ;
            Fixed::saturate(rounded_quotient(a * (ONE_RAW as i128), rhs.raw as i128))
        }
    }
}

impl vstd::std_specs::ops::DivSpecImpl<Fixed> for Fixed {
    open spec fn obeys_div_spec() -> bool {
        true
    }

    open spec fn div_req(self, rhs: Fixed) -> bool {
        true
    }

    open spec fn div_spec(self, rhs: Fixed) -> Fixed {
        self.over(rhs)
    }
}

impl Neg for Fixed {
    type Output = Fixed;

    fn neg(self) -> (r: Fixed) {
        proof {
            use_type_invariant(&self);
        }
        Fixed { raw: -self.raw }
    }
}

impl vstd::std_specs::ops::NegSpecImpl for Fixed {
    open spec fn obeys_neg_spec() -> bool {
        true
    }

    open spec fn neg_req(self) -> bool {
        true
    }

    open spec fn neg_spec(self) -> Fixed {
        self.negated()
    }
}

} // verus!

