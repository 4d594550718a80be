//! Angles and random vectors.
use crate::fixed::Fixed;
use crate::random::{thread_generator, uniform};
use crate::trig::PI_RAW;
use crate::vec3::{Vec3, REJECTION_LIMIT};
use core::ops::Neg;
use vstd::prelude::*;

verus! {

/// The angle of `deg` degrees in radians: `deg` times pi over 180.
pub open spec fn radians(deg: Fixed) -> Fixed {
    deg.times(Fixed::of(PI_RAW as int)).over(Fixed::whole(180))
}

/// Whether `p` lies in the unit disk of the plane `z = 0`.
pub open spec fn in_unit_disk(p: Vec3) -> bool {
    p.z == Fixed::whole(0) && p.in_unit_ball()
}

/// The angle of `deg` degrees in radians.
pub fn deg_2_rad(deg: Fixed) -> (r: Fixed)
    ensures
        r == radians(deg),
{
    deg * Fixed::from_raw(PI_RAW) / Fixed::from_int(180)
}

/// A vector with each component drawn uniformly from `[0, 1)`.
pub fn rand_vec() -> (r: Vec3)
    ensures
        r.within(Fixed::whole(0), Fixed::whole(1)),
{
    Vec3::rand_vec()
}

/// A vector with each component drawn uniformly from `[min, max)`.
pub fn rand_vec_range(min: Fixed, max: Fixed) -> (r: Vec3)
    requires
        min@ < max@,
    ensures
        r.within(min, max),
{
    Vec3::rand_vec_range(min, max)
}

/// A vector inside the unit ball, by rejection.
pub fn rand_in_unit_sphere() -> (r: Vec3)
    ensures
        r.in_unit_ball(),
        r.within(Fixed::whole(-1), Fixed::whole(1)),
{
    Vec3::rand_in_unit_sphere()
}

/// A vector of the unit ball, divided by its length.
pub fn rand_unit_vec() -> (r: Vec3)
    ensures
        exists|p: Vec3| p.in_unit_ball() && r == #[trigger] p.spec_unit_vector(),
{
    Vec3::rand_unit_vec()
}

/// Whether every component of `x` is below `10^-8` in magnitude.
pub fn near_zero(x: Vec3) -> (r: bool)
    ensures
        r == x.spec_near_zero(),
{
    x.near_zero()
}

/// A vector inside the unit disk of the plane `z = 0`: the first of up to
/// [`REJECTION_LIMIT`] draws from the square `[-1, 1)^2` whose squared
/// length is below one, and the origin if none is.
pub fn rand_in_unit_disk() -> (r: Vec3)
    ensures
        in_unit_disk(r),
{
    let mut rng = thread_generator();
    let mut tries: u32 = 0;
    while tries < REJECTION_LIMIT
        invariant
            tries <= REJECTION_LIMIT,
        decreases REJECTION_LIMIT - tries,
    {
        let x = uniform(&mut rng, Fixed::one().neg(), Fixed::one());
        let y = uniform(&mut rng, Fixed::one().neg(), Fixed::one());
        let p = Vec3::new(x, y, Fixed::zero());
        if Vec3::accepts_in_ball(p) {
            return p;
        }
        tries = tries + 1;
    }
    proof {
        Vec3::lemma_origin_in_ball();
    }
    Vec3::zero()
}

} // verus!
