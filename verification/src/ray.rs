//! Rays: a starting point and a direction.
use crate::fixed::Fixed;
use crate::vec3::Vec3;
use vstd::prelude::*;

verus! {

/// A ray, with the inverse of its direction kept for slab tests.
#[derive(Clone, Copy, PartialEq, Eq, Structural, Debug)]
pub struct Ray {
    pub origin: Vec3,
    pub dir: Vec3,
    pub dir_inv: Vec3,
}

impl Ray {
    /// The ray from `origin` along `dir`. The direction need not have
    /// length one; a component of it that is zero has the largest number as
    /// its inverse.
    pub open spec fn through(origin: Vec3, dir: Vec3) -> Ray {
        Ray {
            origin,
            dir,
            dir_inv: Vec3 {
                x: Fixed::whole(1).over(dir.x),
                y: Fixed::whole(1).over(dir.y),
                z: Fixed::whole(1).over(dir.z),
            },
        }
    }

    /// The point at parameter `t`: the origin plus `t` times the direction.
    pub open spec fn spec_at(self, t: Fixed) -> Vec3 {
        self.origin.plus(self.dir.scaled(t))
    }

    /// The ray from `origin` along `dir`.
    pub fn new(origin: Vec3, dir: Vec3) -> (r: Ray)
        ensures
            r == Ray::through(origin, dir),
    {
        Ray {
            origin,
            dir,
            dir_inv: Vec3::new(
                Fixed::one() / dir.x(),
                Fixed::one() / dir.y(),
                Fixed::one() / dir.z(),
            ),
        }
    }

    /// Where the ray starts.
    pub fn origin(self) -> (r: Vec3)
        ensures
            r == self.origin,
    {
        self.origin
    }

    /// The direction of the ray.
    pub fn dir(self) -> (r: Vec3)
        ensures
            r == self.dir,
    {
        self.dir
    }

    /// The point at parameter `t`.
    #[verifier::when_used_as_spec(spec_at)]
    pub fn at(self, t: Fixed) -> (r: Vec3)
        ensures
            r == self.spec_at(t),
    {
        self.origin + t * self.dir
    }
}

} // verus!
