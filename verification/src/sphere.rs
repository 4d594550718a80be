//! Spheres, the one kind of primitive.
use crate::fixed::{floor_sqrt, quotient, rounded_quotient, wide_sqrt, Fixed, MAX_RAW, ONE_RAW};
use crate::vec3::{magnitude_of, product_of};
use crate::hittable::{HitRecord, Hittable};
use crate::material::Material;
use crate::ray::Ray;
use crate::vec3::Vec3;
use core::ops::Neg;
use vstd::prelude::*;

verus! {

/// A box with sides along the axes, given by two opposite corners.
#[derive(Clone, Copy, PartialEq, Eq, Structural, Debug)]
pub struct Aabb {
    pub min: Vec3,
    pub max: Vec3,
}

/// A sphere with its material. `node_index` belongs to whatever
/// acceleration structure holds the sphere and means nothing else.
#[derive(Clone, Copy, PartialEq, Eq, Structural, Debug)]
pub struct Sphere {
    pub center: Vec3,
    pub radius: Fixed,
    pub mat_ptr: Material,
    pub node_index: usize,
}

impl Sphere {
    /// The two distances from the origin of `r`, in raw units and along
    /// its direction, at which the line of `r` meets the sphere, the
    /// smaller first; none if the line passes the sphere, or if the
    /// direction is zero.
    ///
    /// With `u` the unit direction, `b = oc . u` is how far the origin lies
    /// beyond the point of the line nearest to the centre, and
    /// `|oc|^2 - b^2`, at least zero, is the squared distance of the centre
    /// from the line. Where that is at most the squared radius, the line
    /// meets the sphere at the distances `-b` minus and plus the root of
    /// the difference. All of it is exact in the raw values but for one
    /// rounding of `b` and one of the root.
    #[verifier::opaque]
    pub open spec fn chord(self, r: Ray) -> Option<(int, int)> {
        if r.dir.stretched_length() == 0 {
            None
        } else {
            let oc = r.origin.minus(self.center);
            let along = quotient(oc.raw_dot(r.dir.spec_unit_vector()), ONE_RAW as int);
            let apart = if oc.raw_dot(oc) > along * along {
                oc.raw_dot(oc) - along * along
            } else {
                0
            };
            let reach = self.radius@ * self.radius@;
            if apart > reach {
                None
            } else {
                let half_chord = floor_sqrt(reach - apart);
                Some((-along - half_chord, -along + half_chord))
            }
        }
    }

    /// The two parameters at which the line of `r` meets the sphere, the
    /// smaller first: the two distances over the length of the direction,
    /// each rounded toward zero once.
    #[verifier::opaque]
    pub open spec fn roots(self, r: Ray) -> Option<(Fixed, Fixed)> {
        match self.chord(r) {
            None => None,
            Some((near, far)) => Some(
                (
                    parameter_at(near, r.dir.stretch(), r.dir.stretched_length()),
                    parameter_at(far, r.dir.stretch(), r.dir.stretched_length()),
                ),
            ),
        }
    }

    /// The point at which `r` meets the sphere at the parameter `t`, one
    /// of the two roots: the origin plus the unit direction times the
    /// distance that belongs to the root. This is the point of the ray at
    /// `t` up to the rounding of `t`, and lies on the sphere also where
    /// the direction is so long or so short that `t` is coarse or sticks
    /// at the end of the range.
    pub open spec fn point_at(self, r: Ray, t: Fixed) -> Vec3 {
        match self.chord(r) {
            None => r.origin,
            Some((near, far)) => {
                let distance = if parameter_at(near, r.dir.stretch(), r.dir.stretched_length())
                    == t {
                    near
                } else {
                    far
                };
                r.origin.plus(r.dir.spec_unit_vector().scaled(Fixed::of(distance)))
            },
        }
    }

    /// The normal of the sphere at `p`, pointing outward: from the centre
    /// to `p`, divided by the radius.
    pub open spec fn outward_normal(self, p: Vec3) -> Vec3 {
        p.minus(self.center).divided(self.radius)
    }

    /// The record of the hit of `r` at the parameter `t`, one of the two
    /// roots.
    #[verifier::opaque]
    pub open spec fn record_at(self, r: Ray, t: Fixed) -> HitRecord {
        let p = self.point_at(r, t);
        let facing = HitRecord::face_normal(r, self.outward_normal(p));
        HitRecord { p, normal: facing.0, t, front_face: facing.1, material: self.mat_ptr }
    }

    /// The nearest hit of `r` at a parameter in `[t_min, t_max]`: at the
    /// smaller root if that lies in the interval, else at the larger root
    /// if that does, else none.
    pub open spec fn nearest_hit(self, r: Ray, t_min: Fixed, t_max: Fixed) -> Option<HitRecord> {
        match self.roots(r) {
            None => None,
            Some((near, far)) => if t_min@ <= near@ <= t_max@ {
                Some(self.record_at(r, near))
            } else if t_min@ <= far@ <= t_max@ {
                Some(self.record_at(r, far))
            } else {
                None
            },
        }
    }

    /// The box that spans the centre plus and minus the radius on each
    /// axis.
    pub open spec fn bounds(self) -> Aabb {
        let half_size = Vec3 { x: self.radius, y: self.radius, z: self.radius };
        Aabb { min: self.center.minus(half_size), max: self.center.plus(half_size) }
    }

    /// The sphere around `cen` with radius `r`, of material `m`, in no
    /// acceleration structure yet.
    pub fn new(cen: Vec3, r: Fixed, m: Material) -> (s: Sphere)
        ensures
            s == (Sphere { center: cen, radius: r, mat_ptr: m, node_index: 0 }),
    {
        Sphere { center: cen, radius: r, mat_ptr: m, node_index: 0 }
    }

    /// The bounding box of the sphere.
    pub fn aabb(&self) -> (b: Aabb)
        ensures
            b == self.bounds(),
    {
        let half_size = Vec3::new(self.radius, self.radius, self.radius);
        let center = Vec3::new(self.center.x, self.center.y, self.center.z);
        let min = center - half_size;
        let max = center + half_size;
        Aabb { min, max }
    }

    /// Records where an acceleration structure keeps the sphere.
    pub fn set_bh_node_index(&mut self, index: usize)
        ensures
            *final(self) == (Sphere { node_index: index, ..*old(self) }),
    {
        self.node_index = index;
    }

    /// Where an acceleration structure keeps the sphere.
    pub fn bh_node_index(&self) -> (index: usize)
        ensures
            index == self.node_index,
    {
        self.node_index
    }

    /// The smaller root is at most the larger.
    pub proof fn lemma_roots_ordered(self, r: Ray)
        ensures
            self.roots(r) matches Some((near, far)) ==> near@ <= far@,
            self.roots(r) is Some <==> self.chord(r) is Some,
    {
        reveal(Sphere::roots);
        reveal(Sphere::chord);
        let m = r.dir.stretch();
        let len = r.dir.stretched_length();
        if len != 0 {
            crate::vec3::lemma_stretch_positive(r.dir.largest());
            let stretched = (r.dir.x@ * m) * (r.dir.x@ * m) + (r.dir.y@ * m) * (r.dir.y@ * m) + (
            r.dir.z@ * m) * (r.dir.z@ * m);
            if stretched > 0 {
                crate::fixed::lemma_floor_sqrt_exists(stretched);
            }
            let oc = r.origin.minus(self.center);
            let along = quotient(oc.raw_dot(r.dir.spec_unit_vector()), ONE_RAW as int);
            let apart = if oc.raw_dot(oc) > along * along {
                oc.raw_dot(oc) - along * along
            } else {
                0
            };
            let reach = self.radius@ * self.radius@;
            if apart <= reach {
                let half_chord = floor_sqrt(reach - apart);
                crate::fixed::lemma_floor_sqrt_exists(reach - apart);
                lemma_parameter_monotone(-along - half_chord, -along + half_chord, m, len);
            }
        }
    }

    /// A hit lies in the interval that was asked for, and is the hit at
    /// the smaller root whenever that root lies in the interval.
    pub proof fn lemma_hit_is_nearest_root(self, r: Ray, t_min: Fixed, t_max: Fixed)
        ensures
            match (self.nearest_hit(r, t_min, t_max), self.roots(r)) {
                (Some(h), Some((near, far))) => {
                    &&& t_min@ <= h.t@ <= t_max@
                    &&& near@ <= far@
                    &&& (h.t == near || h.t == far)
                    &&& (t_min@ <= near@ <= t_max@ ==> h.t == near)
                    &&& h == self.record_at(r, h.t)
                },
                (Some(h), None) => false,
                (None, Some((near, far))) => !(t_min@ <= near@ <= t_max@) && !(t_min@ <= far@
                    <= t_max@),
                (None, None) => true,
            },
    {
        self.lemma_roots_ordered(r);
        if let Some((near, far)) = self.roots(r) {
            self.lemma_record_fields(r, near);
            self.lemma_record_fields(r, far);
        }
    }

    /// What a narrower interval finds: the same hit if it still lies in
    /// the interval, and none otherwise.
    pub proof fn lemma_hit_restricts(self, r: Ray, t_min: Fixed, t_max: Fixed, limit: Fixed)
        requires
            limit@ <= t_max@,
        ensures
            self.nearest_hit(r, t_min, limit) == (match self.nearest_hit(r, t_min, t_max) {
                Some(h) => if h.t@ <= limit@ {
                    Some(h)
                } else {
                    None
                },
                None => None,
            }),
    {
        self.lemma_roots_ordered(r);
        if let Some((near, far)) = self.roots(r) {
            self.lemma_record_fields(r, near);
            self.lemma_record_fields(r, far);
        }
    }

    /// The record of the hit at `t` holds `t`, the point that belongs to
    /// `t` and the sphere's material, and its normal is well formed.
    pub proof fn lemma_record_fields(self, r: Ray, t: Fixed)
        ensures
            self.record_at(r, t).t == t,
            self.record_at(r, t).p == self.point_at(r, t),
            self.record_at(r, t).material == self.mat_ptr,
            self.record_at(r, t).normal.wf(),
    {
        reveal(Sphere::record_at);
    }

    /// The record of a hit has its normal turned against the ray, and says
    /// that the ray came from outside exactly if the direction and the
    /// outward normal at the hit point have a negative dot product.
    pub proof fn lemma_record_faces_ray(self, r: Ray, t: Fixed)
        requires
            r.dir.wf(),
        ensures
            self.record_at(r, t).front_face <==> r.dir.raw_dot(
                self.outward_normal(self.point_at(r, t)),
            ) < 0,
            r.dir.spec_dot(self.record_at(r, t).normal)@ <= 0,
    {
        reveal(Sphere::record_at);
        HitRecord::lemma_face_normal_opposes(r, self.outward_normal(self.point_at(r, t)));
    }
}

impl Sphere {
    /// Every hit says that the ray came from outside exactly if the
    /// direction and the outward normal at the hit point have a negative
    /// dot product, and has its normal turned against the ray.
    pub proof fn lemma_hit_faces_ray(self, r: Ray, t_min: Fixed, t_max: Fixed)
        requires
            r.dir.wf(),
        ensures
            self.nearest_hit(r, t_min, t_max) matches Some(h) ==> (h.front_face <==> r.dir.raw_dot(
                self.outward_normal(h.p),
            ) < 0) && r.dir.spec_dot(h.normal)@ <= 0,
    {
        if let Some(h) = self.nearest_hit(r, t_min, t_max) {
            self.lemma_hit_is_nearest_root(r, t_min, t_max);
            self.lemma_record_fields(r, h.t);
            self.lemma_record_faces_ray(r, h.t);
        }
    }
}

impl Hittable for Sphere {
    open spec fn spec_hit(&self, r: Ray, t_min: Fixed, t_max: Fixed) -> Option<HitRecord> {
        self.nearest_hit(r, t_min, t_max)
    }

    fn hit(&self, r: &Ray, t_min: Fixed, t_max: Fixed) -> (res: Option<HitRecord>) {
        proof {
            reveal(Sphere::chord);
            reveal(Sphere::roots);
            reveal(Sphere::record_at);
        }
        let (m, len) = r.dir.stretch_and_length();
        if len == 0 {
            return None;
        }
        let unit = r.dir.unit_vector();
        let oc = r.origin - self.center;
        let along: i128 = distance_along(oc, unit);
        let oc2: u128 = oc.raw_length_squared();
        let a: u128 = if along < 0 {
            (-along) as u128
        } else {
            along as u128
        };
        let apart: u128 = if a >= 0x1_0000_0000_0000_0000 {
            proof {
                assert(a * a >= 0x1_0000_0000_0000_0000_0000_0000_0000_0000) by (nonlinear_arith)
                    requires
                        a >= 0x1_0000_0000_0000_0000,
                ;
                assert(along * along == a * a) by (nonlinear_arith)
                    requires
                        a == along || a == -along,
                ;
            }
            0
        } else {
            proof {
                assert(a * a < 0x1_0000_0000_0000_0000_0000_0000_0000_0000) by (nonlinear_arith)
                    requires
                        0 <= a < 0x1_0000_0000_0000_0000,
                ;
                assert(along * along == a * a) by (nonlinear_arith)
                    requires
                        a == along || a == -along,
                ;
            }
            let a2: u128 = a * a;
            if oc2 > a2 {
                oc2 - a2
            } else {
                0
            }
        };
        let radius: u128 = magnitude_of(self.radius);
        proof {
            crate::vec3::lemma_square_bound(radius as int);
            assert(self.radius@ * self.radius@ == radius * radius) by (nonlinear_arith)
                requires
                    radius == self.radius@ || radius == -self.radius@,
            ;
        }
        let reach: u128 = radius * radius;
        if apart > reach {
            return None;
        }
        let half_chord: i128 = wide_sqrt(reach - apart) as i128;

        let mut distance: i128 = -along - half_chord;
        let mut root = parameter(distance, m, len);
        if root.lt(t_min) || t_max.lt(root) {
            distance = -along + half_chord;
            root = parameter(distance, m, len);
            if root.lt(t_min) || t_max.lt(root) {
                return None;
            }
        }
        let t = root;
        let p = r.origin + Fixed::saturate(distance) * unit;
        let outward_normal = (p - self.center) / self.radius;
        let (normal, front_face) = HitRecord::set_face_normal(r, outward_normal);

        let rec = HitRecord::new(p, normal, t, front_face, self.mat_ptr);

        Some(rec)
    }
}

/// The parameter at which a ray has gone the distance `distance`, in raw
/// units: the distance over the length of the direction, which is `len`
/// over `m`; rounded toward zero once.
pub open spec fn parameter_at(distance: int, m: int, len: int) -> Fixed {
    Fixed::of(quotient((distance * ONE_RAW) * m, len))
}

/// A greater distance has a greater parameter, or the same.
pub proof fn lemma_parameter_monotone(near: int, far: int, m: int, len: int)
    requires
        near <= far,
        m >= 1,
        len > 0,
    ensures
        parameter_at(near, m, len)@ <= parameter_at(far, m, len)@,
{
    assert((near * ONE_RAW) * m <= (far * ONE_RAW) * m) by (nonlinear_arith)
        requires
            near <= far,
            m >= 1,
            ONE_RAW > 0,
    ;
    crate::fixed::lemma_quotient_monotone((near * ONE_RAW) * m, (far * ONE_RAW) * m, len);
}

/// How far, in raw units, the point `oc` lies along the unit vector
/// `unit`.
fn distance_along(oc: Vec3, unit: Vec3) -> (r: i128)
    requires
        unit.within_unit(),
    ensures
        r == quotient(oc.raw_dot(unit), ONE_RAW as int),
        -0x2_0000_0000_0000_0000 < r < 0x2_0000_0000_0000_0000,
{
    let a: i128 = product_of(oc.x, unit.x);
    let b: i128 = product_of(oc.y, unit.y);
    let c: i128 = product_of(oc.z, unit.z);
    proof {
        use_type_invariant(&oc.x);
        use_type_invariant(&oc.y);
        use_type_invariant(&oc.z);
        lemma_product_with_unit(oc.x@, unit.x@);
        lemma_product_with_unit(oc.y@, unit.y@);
        lemma_product_with_unit(oc.z@, unit.z@);
    }
    rounded_quotient(a + b + c, ONE_RAW as i128)
}

/// A raw value times a number of `[-1, 1]` has a magnitude below `2^95`.
proof fn lemma_product_with_unit(x: int, u: int)
    requires
        -0x8000_0000_0000_0000 < x < 0x8000_0000_0000_0000,
        -ONE_RAW <= u <= ONE_RAW,
    ensures
        -0x8000_0000_0000_0000_0000_0000 < x * u < 0x8000_0000_0000_0000_0000_0000,
{
    assert(-0x8000_0000_0000_0000_0000_0000 < x * u < 0x8000_0000_0000_0000_0000_0000)
        by (nonlinear_arith)
        requires
            -0x8000_0000_0000_0000 < x < 0x8000_0000_0000_0000,
            -0x1_0000_0000 <= u <= 0x1_0000_0000,
    ;
}

/// The parameter for the distance `distance`, in raw units.
fn parameter(distance: i128, m: i128, len: u128) -> (t: Fixed)
    requires
        -0x4_0000_0000_0000_0000 < distance < 0x4_0000_0000_0000_0000,
        1 <= m < 0x8000_0000_0000_0000,
        0x2000_0000_0000_0000 <= len < 0x1_0000_0000_0000_0000,
    ensures
        t == parameter_at(distance as int, m as int, len as int),
{
    let a: u128 = if distance < 0 {
        (-distance) as u128
    } else {
        distance as u128
    };
    assert(a * ONE_RAW < 0x4_0000_0000_0000_0000_0000_0000) by (nonlinear_arith)
        requires
            0 <= a < 0x4_0000_0000_0000_0000,
            ONE_RAW == 0x1_0000_0000,
    ;
    let x: u128 = a * (ONE_RAW as u128);
    let q: u128 = x / len;
    let rest: u128 = x % len;
    let scale: u128 = m as u128;
    proof {
        vstd::arithmetic::div_mod::lemma_fundamental_div_mod(x as int, len as int);
        vstd::arithmetic::div_mod::lemma_div_is_ordered(
            x as int,
            0x4_0000_0000_0000_0000_0000_0000,
            len as int,
        );
        vstd::arithmetic::div_mod::lemma_div_is_ordered_by_denominator(
            0x4_0000_0000_0000_0000_0000_0000,
            0x2000_0000_0000_0000,
            len as int,
        );
        assert(q * scale < 0x1_0000_0000_0000_0000_0000_0000_0000) by (nonlinear_arith)
            requires
                0 <= q <= 0x20_0000_0000,
                0 <= scale < 0x8000_0000_0000_0000,
        ;
        assert(rest * scale < 0x8000_0000_0000_0000_0000_0000_0000_0000) by (nonlinear_arith)
            requires
                0 <= rest < 0x1_0000_0000_0000_0000,
                0 <= scale < 0x8000_0000_0000_0000,
        ;
        assert(x * scale == (q * scale) * len + rest * scale) by (nonlinear_arith)
            requires
                x == len * q + rest,
        ;
        vstd::arithmetic::div_mod::lemma_hoist_over_denominator(
            rest * scale,
            q * scale,
            len as nat,
        );
        vstd::arithmetic::div_mod::lemma_div_is_ordered(
            (rest * scale) as int,
            0x8000_0000_0000_0000_0000_0000_0000_0000,
            len as int,
        );
        vstd::arithmetic::div_mod::lemma_div_is_ordered_by_denominator(
            0x8000_0000_0000_0000_0000_0000_0000_0000,
            0x2000_0000_0000_0000,
            len as int,
        );
        assert(x * scale >= 0) by (nonlinear_arith)
            requires
                x >= 0,
                scale >= 0,
        ;
        if distance < 0 {
            assert((distance * ONE_RAW) * m == -(x * scale)) by (nonlinear_arith)
                requires
                    a == -distance,
                    x == a * ONE_RAW,
                    scale == m,
            ;
        } else {
            assert((distance * ONE_RAW) * m == x * scale) by (nonlinear_arith)
                requires
                    a == distance,
                    x == a * ONE_RAW,
                    scale == m,
            ;
        }
    }
    let v: u128 = q * scale + (rest * scale) / len;
    if v > MAX_RAW as u128 {
        if distance < 0 {
            Fixed::max_value().neg()
        } else {
            Fixed::max_value()
        }
    } else if distance < 0 {
        Fixed::saturate(-(v as i128))
    } else {
        Fixed::saturate(v as i128)
    }
}

/// One component of the squared distance of a hit point from the centre,
/// times the square of one, against its exact value: `oc` is the component
/// of the origin seen from the centre, `u` that of the unit direction and
/// `dist` the distance of the hit.
proof fn lemma_point_component(oc: int, u: int, dist: int, bound: int) -> (d: int)
    requires
        -ONE_RAW <= u <= ONE_RAW,
        -bound <= oc <= bound,
        -bound <= dist <= bound,
    ensures
        d == 0x1_0000_0000_0000_0000 * ((oc + quotient(u * dist, ONE_RAW as int)) * (oc + quotient(
            u * dist,
            ONE_RAW as int,
        ))) - (0x1_0000_0000_0000_0000 * (oc * oc) + 0x2_0000_0000 * (dist * (oc * u)) + (dist
            * dist) * (u * u)),
        -0x4_0000_0000_0000_0000 * bound <= d <= 0x4_0000_0000_0000_0000 * bound
            + 0x1_0000_0000_0000_0000,
        -bound <= quotient(u * dist, ONE_RAW as int) <= bound,
{
    let g = quotient(u * dist, ONE_RAW as int);
    let e = crate::fixed::lemma_quotient_error(u * dist);
    let big = 0x1_0000_0000 * oc + u * dist;
    assert(-0x1_0000_0000 * bound <= u * dist <= 0x1_0000_0000 * bound) by (nonlinear_arith)
        requires
            -0x1_0000_0000 <= u <= 0x1_0000_0000,
            -bound <= dist <= bound,
    ;
    assert(-bound <= g <= bound) by (nonlinear_arith)
        requires
            e == u * dist - ONE_RAW * g,
            -ONE_RAW < e < ONE_RAW,
            u * dist >= 0 ==> e >= 0,
            u * dist <= 0 ==> e <= 0,
            -0x1_0000_0000 * bound <= u * dist <= 0x1_0000_0000 * bound,
            ONE_RAW == 0x1_0000_0000,
    ;
    assert(0x1_0000_0000 * (oc + g) == big - e) by (nonlinear_arith)
        requires
            e == u * dist - ONE_RAW * g,
            big == 0x1_0000_0000 * oc + u * dist,
            ONE_RAW == 0x1_0000_0000,
    ;
    let left = 0x1_0000_0000_0000_0000 * ((oc + g) * (oc + g));
    assert(left == (big - e) * (big - e)) by (nonlinear_arith)
        requires
            left == 0x1_0000_0000_0000_0000 * ((oc + g) * (oc + g)),
            0x1_0000_0000 * (oc + g) == big - e,
    ;
    assert((big - e) * (big - e) == big * big - 2 * (e * big) + e * e) by (nonlinear_arith);
    assert(big * big == 0x1_0000_0000_0000_0000 * (oc * oc) + 0x2_0000_0000 * (dist * (oc * u))
        + (dist * dist) * (u * u)) by (nonlinear_arith)
        requires
            big == 0x1_0000_0000 * oc + u * dist,
    ;
    assert(-0x2_0000_0000 * bound <= big <= 0x2_0000_0000 * bound);
    assert(-0x2_0000_0000_0000_0000 * bound <= e * big <= 0x2_0000_0000_0000_0000 * bound)
        by (nonlinear_arith)
        requires
            -0x1_0000_0000 < e < 0x1_0000_0000,
            -0x2_0000_0000 * bound <= big <= 0x2_0000_0000 * bound,
    ;
    assert(0 <= e * e <= 0x1_0000_0000_0000_0000) by (nonlinear_arith)
        requires
            -0x1_0000_0000 < e < 0x1_0000_0000,
    ;
    left - big * big
}

/// The squared distance `q2` of a hit point from the centre against the
/// squared distance of the centre from the line plus the square of the
/// half chord, all in raw units.
proof fn lemma_point_distance(
    q2: int,
    oc2: int,
    ou: int,
    u2: int,
    along: int,
    dist: int,
    dsum: int,
    bound: int,
)
    requires
        0x1_0000_0000_0000_0000 * q2 == 0x1_0000_0000_0000_0000 * oc2 + 0x2_0000_0000 * (dist * ou)
            + (dist * dist) * u2 + dsum,
        -0x1_0000_0000 < ou - 0x1_0000_0000 * along < 0x1_0000_0000,
        -0x8_0000_0000 <= u2 - 0x1_0000_0000_0000_0000 <= 0x8_0000_0000,
        -bound <= dist <= bound,
        -0xc_0000_0000_0000_0000 * bound <= dsum <= 0xc_0000_0000_0000_0000 * bound
            + 0x3_0000_0000_0000_0000,
    ensures
        -(0x1_0000_0000 * (14 * bound + 3) + 8 * (dist * dist)) <= 0x1_0000_0000 * (q2 - (oc2
            - along * along + (dist + along) * (dist + along))) <= 0x1_0000_0000 * (14 * bound + 3)
            + 8 * (dist * dist),
{
    let eps = ou - 0x1_0000_0000 * along;
    let excess = u2 - 0x1_0000_0000_0000_0000;
    let dd = dist * dist;
    let de = dist * eps;
    let dde = dd * excess;
    let da = dist * along;
    assert(dd >= 0) by (nonlinear_arith)
        requires
            dd == dist * dist,
    ;
    assert(-0x1_0000_0000 * bound <= de <= 0x1_0000_0000 * bound) by (nonlinear_arith)
        requires
            de == dist * eps,
            -0x1_0000_0000 < eps < 0x1_0000_0000,
            -bound <= dist <= bound,
    ;
    assert(-0x8_0000_0000 * dd <= dde <= 0x8_0000_0000 * dd) by (nonlinear_arith)
        requires
            dde == dd * excess,
            dd >= 0,
            -0x8_0000_0000 <= excess <= 0x8_0000_0000,
    ;
    assert(dist * ou == 0x1_0000_0000 * da + de) by (nonlinear_arith)
        requires
            eps == ou - 0x1_0000_0000 * along,
            da == dist * along,
            de == dist * eps,
    ;
    assert(dd * u2 == 0x1_0000_0000_0000_0000 * dd + dde) by (nonlinear_arith)
        requires
            dde == dd * excess,
            excess == u2 - 0x1_0000_0000_0000_0000,
    ;
    assert((dist * dist) * u2 == dd * u2);
    assert((dist + along) * (dist + along) - along * along == dd + 2 * da) by (nonlinear_arith)
        requires
            dd == dist * dist,
            da == dist * along,
    ;
}

impl Sphere {
    /// A hit point lies on the sphere up to rounding. For a scene in which
    /// no coordinate and no radius exceeds `size` raw units, itself at
    /// most `2^59`, the exact squared distance of the hit point from the
    /// centre, in raw units, differs from the square of the radius by at
    /// most `114 size + 3` and `608 size^2 / 2^32`: in real numbers, for a
    /// scene of size `Z`, by at most `2^-32 (114 Z + 608 Z^2)`. This holds
    /// for every direction but zero, however long or short.
    pub proof fn lemma_hit_point_on_sphere(self, r: Ray, t: Fixed, size: int)
        requires
            r.dir.wf(),
            r.dir != Vec3::origin(),
            0 < size <= 0x800_0000_0000_0000,
            -size <= r.origin.x@ <= size,
            -size <= r.origin.y@ <= size,
            -size <= r.origin.z@ <= size,
            -size <= self.center.x@ <= size,
            -size <= self.center.y@ <= size,
            -size <= self.center.z@ <= size,
            -size <= self.radius@ <= size,
            self.roots(r) matches Some((near, far)) && (t == near || t == far),
        ensures
            ({
                let off = self.point_at(r, t).minus(self.center);
                let reach = self.radius@ * self.radius@;
                -(ONE_RAW * (114 * size + 3) + 608 * (size * size)) <= ONE_RAW * (off.raw_dot(off)
                    - reach) <= ONE_RAW * (114 * size + 3) + 608 * (size * size)
            }),
    {
        reveal(Sphere::roots);
        reveal(Sphere::chord);
        let unit = r.dir.spec_unit_vector();
        r.dir.lemma_unit_vector_length();
        assert(ONE_RAW * ONE_RAW == 0x1_0000_0000_0000_0000) by (nonlinear_arith)
            requires
                ONE_RAW == 0x1_0000_0000,
        ;
        let oc = r.origin.minus(self.center);
        assert(oc.x@ == r.origin.x@ - self.center.x@);
        assert(oc.y@ == r.origin.y@ - self.center.y@);
        assert(oc.z@ == r.origin.z@ - self.center.z@);
        let ou = oc.raw_dot(unit);
        let along = quotient(ou, ONE_RAW as int);
        let eps = crate::fixed::lemma_quotient_error(ou);
        let oc2 = oc.raw_dot(oc);
        let u2 = unit.raw_dot(unit);
        let apart = if oc2 > along * along {
            oc2 - along * along
        } else {
            0
        };
        let reach = self.radius@ * self.radius@;
        let half_chord = floor_sqrt(reach - apart);
        crate::fixed::lemma_floor_sqrt_exists(reach - apart);
        let pair = self.chord(r)->0;
        let near = pair.0;
        let far = pair.1;
        let distance = if parameter_at(near, r.dir.stretch(), r.dir.stretched_length()) == t {
            near
        } else {
            far
        };
        assert(distance == -along - half_chord || distance == -along + half_chord);
        let bound = 8 * size;
        lemma_bounded_products(oc.x@, unit.x@, size);
        lemma_bounded_products(oc.y@, unit.y@, size);
        lemma_bounded_products(oc.z@, unit.z@, size);
        assert(-6 * size * ONE_RAW <= ou <= 6 * size * ONE_RAW);
        assert(-6 * size <= along <= 6 * size) by (nonlinear_arith)
            requires
                eps == ou - ONE_RAW * along,
                -ONE_RAW < eps < ONE_RAW,
                ou >= 0 ==> eps >= 0,
                ou <= 0 ==> eps <= 0,
                -6 * size * ONE_RAW <= ou <= 6 * size * ONE_RAW,
                ONE_RAW == 0x1_0000_0000,
        ;
        assert(reach <= size * size) by (nonlinear_arith)
            requires
                reach == self.radius@ * self.radius@,
                -size <= self.radius@ <= size,
        ;
        assert(along * along >= 0) by (nonlinear_arith);
        assert(half_chord <= size) by (nonlinear_arith)
            requires
                half_chord * half_chord <= reach - apart,
                apart >= 0,
                reach <= size * size,
                half_chord >= 0,
                size > 0,
        ;
        assert(-bound <= distance <= bound);
        let reached = Fixed::of(distance);
        assert(reached@ == distance);
        let dx = lemma_point_component(oc.x@, unit.x@, distance, bound);
        let dy = lemma_point_component(oc.y@, unit.y@, distance, bound);
        let dz = lemma_point_component(oc.z@, unit.z@, distance, bound);
        let gone = unit.scaled(reached);
        assert(gone.x@ == quotient(unit.x@ * distance, ONE_RAW as int));
        assert(gone.y@ == quotient(unit.y@ * distance, ONE_RAW as int));
        assert(gone.z@ == quotient(unit.z@ * distance, ONE_RAW as int));
        let point = self.point_at(r, t);
        assert(point == r.origin.plus(gone));
        let off = point.minus(self.center);
        assert(off.x@ == oc.x@ + gone.x@);
        assert(off.y@ == oc.y@ + gone.y@);
        assert(off.z@ == oc.z@ + gone.z@);
        let q2 = off.raw_dot(off);
        assert(0x1_0000_0000_0000_0000 * q2 == 0x1_0000_0000_0000_0000 * oc2 + 0x2_0000_0000 * (
        distance * ou) + (distance * distance) * u2 + (dx + dy + dz)) by (nonlinear_arith)
            requires
                q2 == off.x@ * off.x@ + off.y@ * off.y@ + off.z@ * off.z@,
                oc2 == oc.x@ * oc.x@ + oc.y@ * oc.y@ + oc.z@ * oc.z@,
                u2 == unit.x@ * unit.x@ + unit.y@ * unit.y@ + unit.z@ * unit.z@,
                ou == oc.x@ * unit.x@ + oc.y@ * unit.y@ + oc.z@ * unit.z@,
                dx == 0x1_0000_0000_0000_0000 * (off.x@ * off.x@) - (0x1_0000_0000_0000_0000 * (
                oc.x@ * oc.x@) + 0x2_0000_0000 * (distance * (oc.x@ * unit.x@)) + (distance
                    * distance) * (unit.x@ * unit.x@)),
                dy == 0x1_0000_0000_0000_0000 * (off.y@ * off.y@) - (0x1_0000_0000_0000_0000 * (
                oc.y@ * oc.y@) + 0x2_0000_0000 * (distance * (oc.y@ * unit.y@)) + (distance
                    * distance) * (unit.y@ * unit.y@)),
                dz == 0x1_0000_0000_0000_0000 * (off.z@ * off.z@) - (0x1_0000_0000_0000_0000 * (
                oc.z@ * oc.z@) + 0x2_0000_0000 * (distance * (oc.z@ * unit.z@)) + (distance
                    * distance) * (unit.z@ * unit.z@)),
        ;
        lemma_point_distance(q2, oc2, ou, u2, along, distance, dx + dy + dz, bound);
        let chord2 = (distance + along) * (distance + along);
        assert(chord2 == half_chord * half_chord) by (nonlinear_arith)
            requires
                chord2 == (distance + along) * (distance + along),
                distance + along == half_chord || distance + along == -half_chord,
        ;
        assert(distance * distance <= 64 * (size * size)) by (nonlinear_arith)
            requires
                -8 * size <= distance <= 8 * size,
        ;
        assert(0 <= oc2 <= 12 * (size * size)) by (nonlinear_arith)
            requires
                oc2 == oc.x@ * oc.x@ + oc.y@ * oc.y@ + oc.z@ * oc.z@,
                -2 * size <= oc.x@ <= 2 * size,
                -2 * size <= oc.y@ <= 2 * size,
                -2 * size <= oc.z@ <= 2 * size,
        ;
        assert((half_chord + 1) * (half_chord + 1) == half_chord * half_chord + 2 * half_chord
            + 1) by (nonlinear_arith);
        if oc2 <= along * along {
            oc.lemma_dot_bound(unit);
            let aa = along * along;
            assert(0x1_0000_0000_0000_0000 * aa <= ou * ou) by (nonlinear_arith)
                requires
                    aa == along * along,
                    eps == ou - ONE_RAW * along,
                    ou >= 0 ==> 0 <= eps,
                    ou <= 0 ==> eps <= 0,
                    -ONE_RAW < eps < ONE_RAW,
                    ONE_RAW == 0x1_0000_0000,
            ;
            assert(oc2 * u2 <= 0x1_0000_0000_0000_0000 * oc2 + 0x8_0000_0000 * oc2)
                by (nonlinear_arith)
                requires
                    oc2 >= 0,
                    u2 <= 0x1_0000_0000_0000_0000 + 0x8_0000_0000,
            ;
            assert(0x1_0000_0000 * (aa - oc2) <= 8 * oc2);
        }
    }
}

/// One component of the squared length of a normal, times the square of
/// the radius, against its exact value: `q` is the component of the hit
/// point seen from the centre.
proof fn lemma_normal_component(q: int, radius: int, most: int) -> (d: int)
    requires
        radius > 0,
        -most <= q <= most,
    ensures
        d == (radius * radius) * (quotient(q * ONE_RAW, radius) * quotient(q * ONE_RAW, radius))
            - 0x1_0000_0000_0000_0000 * (q * q),
        -0x2_0000_0000 * (radius * most) <= d <= 0x2_0000_0000 * (radius * most) + radius
            * radius,
{
    let top = q * ONE_RAW;
    let g = quotient(top, radius);
    let a = if top < 0 { -top } else { top };
    vstd::arithmetic::div_mod::lemma_fundamental_div_mod(a, radius);
    vstd::arithmetic::div_mod::lemma_mod_bound(a, radius);
    let e = top - radius * g;
    assert(-radius < e < radius && (g == a / radius || g == -(a / radius))) by {
        if top < 0 {
            assert(g == -(a / radius));
            assert(radius * g == -(radius * (a / radius))) by (nonlinear_arith)
                requires
                    g == -(a / radius),
            ;
        }
    }
    let left = (radius * radius) * (g * g);
    assert(left == (top - e) * (top - e)) by (nonlinear_arith)
        requires
            left == (radius * radius) * (g * g),
            e == top - radius * g,
    ;
    assert((top - e) * (top - e) == top * top - 2 * (e * top) + e * e) by (nonlinear_arith);
    assert(top * top == 0x1_0000_0000_0000_0000 * (q * q)) by (nonlinear_arith)
        requires
            top == q * ONE_RAW,
            ONE_RAW == 0x1_0000_0000,
    ;
    assert(-0x1_0000_0000 * most <= top <= 0x1_0000_0000 * most) by (nonlinear_arith)
        requires
            top == q * ONE_RAW,
            -most <= q <= most,
            ONE_RAW == 0x1_0000_0000,
    ;
    let rm = radius * most;
    assert(-0x1_0000_0000 * rm <= e * top <= 0x1_0000_0000 * rm) by (nonlinear_arith)
        requires
            -radius < e < radius,
            -0x1_0000_0000 * most <= top <= 0x1_0000_0000 * most,
            rm == radius * most,
            radius > 0,
    ;
    assert(0 <= e * e <= radius * radius) by (nonlinear_arith)
        requires
            -radius < e < radius,
    ;
    left - top * top
}

impl Sphere {
    /// The normal of a hit has length one up to rounding. For a scene in
    /// which no coordinate and no radius exceeds `size` raw units, and a
    /// sphere whose radius is at least `2^16` raw units and not less than
    /// a millionth (`2^-20`) of that size, the exact squared length of the
    /// normal, in raw units and times the squared radius, differs from
    /// the square of one times the squared radius by at most what the hit
    /// point is off the sphere and what the division by the radius loses:
    /// in real numbers, for a scene of size `Z` and a radius `R`, the
    /// squared length lies within `2^-32 (114 Z + 608 Z^2) / R^2 + 2^-19`
    /// of one.
    pub proof fn lemma_hit_normal_unit(self, r: Ray, t: Fixed, size: int)
        requires
            r.dir.wf(),
            r.dir != Vec3::origin(),
            0 < size <= 0x800_0000_0000_0000,
            -size <= r.origin.x@ <= size,
            -size <= r.origin.y@ <= size,
            -size <= r.origin.z@ <= size,
            -size <= self.center.x@ <= size,
            -size <= self.center.y@ <= size,
            -size <= self.center.z@ <= size,
            0x1_0000 <= self.radius@ <= size,
            size <= 0x10_0000 * self.radius@,
            self.roots(r) matches Some((near, far)) && (t == near || t == far),
        ensures
            ({
                let normal = self.record_at(r, t).normal;
                let reach = self.radius@ * self.radius@;
                let slack = ONE_RAW * (ONE_RAW * (114 * size + 3) + 608 * (size * size)) + 6
                    * ONE_RAW * (0x400 * reach) + 3 * reach;
                -slack <= reach * (normal.raw_dot(normal) - ONE_RAW * ONE_RAW) <= slack
            }),
    {
        reveal(Sphere::record_at);
        self.lemma_hit_point_on_sphere(r, t, size);
        let radius = self.radius@;
        let reach = radius * radius;
        let point = self.point_at(r, t);
        let off = point.minus(self.center);
        let q2 = off.raw_dot(off);
        let outward = self.outward_normal(point);
        assert(ONE_RAW * ONE_RAW == 0x1_0000_0000_0000_0000) by (nonlinear_arith)
            requires
                ONE_RAW == 0x1_0000_0000,
        ;
        assert(reach >= radius) by (nonlinear_arith)
            requires
                reach == radius * radius,
                radius >= 1,
        ;
        let most = 0x400 * radius;
        assert(size * size <= 0x100_0000_0000 * reach) by (nonlinear_arith)
            requires
                0 < size <= 0x10_0000 * radius,
                reach == radius * radius,
        ;
        assert(most * most == 0x10_0000 * reach) by (nonlinear_arith)
            requires
                most == 0x400 * radius,
                reach == radius * radius,
        ;
        assert(size <= 0x10 * reach) by (nonlinear_arith)
            requires
                size <= 0x10_0000 * radius,
                radius >= 0x1_0000,
                reach == radius * radius,
        ;
        assert(off.x@ * off.x@ >= 0) by (nonlinear_arith);
        assert(off.y@ * off.y@ >= 0) by (nonlinear_arith);
        assert(off.z@ * off.z@ >= 0) by (nonlinear_arith);
        assert(q2 <= most * most);
        lemma_below_root(off.x@, most);
        lemma_below_root(off.y@, most);
        lemma_below_root(off.z@, most);
        let dx = lemma_normal_component(off.x@, radius, most);
        let dy = lemma_normal_component(off.y@, radius, most);
        let dz = lemma_normal_component(off.z@, radius, most);
        lemma_within_range(off.x@, radius, most);
        lemma_within_range(off.y@, radius, most);
        lemma_within_range(off.z@, radius, most);
        assert(outward.x@ == quotient(off.x@ * ONE_RAW, radius));
        assert(outward.y@ == quotient(off.y@ * ONE_RAW, radius));
        assert(outward.z@ == quotient(off.z@ * ONE_RAW, radius));
        let normal = self.record_at(r, t).normal;
        let n2 = outward.raw_dot(outward);
        assert(normal.raw_dot(normal) == n2) by {
            if normal != outward {
                assert(normal == outward.negated());
                assert((-outward.x@) * (-outward.x@) == outward.x@ * outward.x@)
                    by (nonlinear_arith);
                assert((-outward.y@) * (-outward.y@) == outward.y@ * outward.y@)
                    by (nonlinear_arith);
                assert((-outward.z@) * (-outward.z@) == outward.z@ * outward.z@)
                    by (nonlinear_arith);
            }
        }
        assert(reach * n2 == 0x1_0000_0000_0000_0000 * q2 + (dx + dy + dz)) by (nonlinear_arith)
            requires
                n2 == outward.x@ * outward.x@ + outward.y@ * outward.y@ + outward.z@ * outward.z@,
                q2 == off.x@ * off.x@ + off.y@ * off.y@ + off.z@ * off.z@,
                dx == reach * (outward.x@ * outward.x@) - 0x1_0000_0000_0000_0000 * (off.x@
                    * off.x@),
                dy == reach * (outward.y@ * outward.y@) - 0x1_0000_0000_0000_0000 * (off.y@
                    * off.y@),
                dz == reach * (outward.z@ * outward.z@) - 0x1_0000_0000_0000_0000 * (off.z@
                    * off.z@),
        ;
        assert(radius * most == 0x400 * reach) by (nonlinear_arith)
            requires
                most == 0x400 * radius,
                reach == radius * radius,
        ;
        assert(reach * (n2 - 0x1_0000_0000_0000_0000) == 0x1_0000_0000_0000_0000 * (q2 - reach)
            + (dx + dy + dz)) by (nonlinear_arith)
            requires
                reach * n2 == 0x1_0000_0000_0000_0000 * q2 + (dx + dy + dz),
        ;
        let inner = ONE_RAW * (q2 - reach);
        assert(0x1_0000_0000_0000_0000 * (q2 - reach) == ONE_RAW * inner) by (nonlinear_arith)
            requires
                inner == ONE_RAW * (q2 - reach),
                ONE_RAW == 0x1_0000_0000,
        ;
        let edge = ONE_RAW * (114 * size + 3) + 608 * (size * size);
        assert(-(ONE_RAW * edge) <= ONE_RAW * inner <= ONE_RAW * edge) by (nonlinear_arith)
            requires
                -edge <= inner <= edge,
                ONE_RAW > 0,
        ;
    }
}

/// Two quotients by one of numbers that lie within `gap` of one another
/// lie within `gap / 2^32 + 2` of one another.
proof fn lemma_close_quotients(x: int, y: int, gap: int)
    requires
        -gap <= x - y <= gap,
    ensures
        -(gap + 0x2_0000_0000) <= ONE_RAW * (quotient(x, ONE_RAW as int) - quotient(
            y,
            ONE_RAW as int,
        )) <= gap + 0x2_0000_0000,
{
    let e = crate::fixed::lemma_quotient_error(x);
    let f = crate::fixed::lemma_quotient_error(y);
    assert(ONE_RAW * (quotient(x, ONE_RAW as int) - quotient(y, ONE_RAW as int)) == (x - y) - e
        + f) by (nonlinear_arith)
        requires
            e == x - ONE_RAW * quotient(x, ONE_RAW as int),
            f == y - ONE_RAW * quotient(y, ONE_RAW as int),
    ;
}

/// The unit component times the distance against the component times the
/// parameter: both are the component times the distance over the length,
/// each up to one rounding.
proof fn lemma_same_product(d: int, dist: int, m: int, len: int, u: int, t: int)
    requires
        len > 0,
        u == quotient((d * m) * ONE_RAW, len),
        t == quotient((dist * ONE_RAW) * m, len),
    ensures
        ({
            let a = if dist < 0 { -dist } else { dist };
            let b = if d < 0 { -d } else { d };
            -(a + b) <= u * dist - d * t <= a + b
        }),
{
    let top = (d * m) * ONE_RAW;
    let e = lemma_quotient_rest(top, len);
    let up = (dist * ONE_RAW) * m;
    let f = lemma_quotient_rest(up, len);
    let gap = u * dist - d * t;
    let lu = len * u;
    let lt = len * t;
    assert(top * dist == d * up) by (nonlinear_arith)
        requires
            top == (d * m) * ONE_RAW,
            up == (dist * ONE_RAW) * m,
    ;
    assert(len * (u * dist) == lu * dist) by (nonlinear_arith)
        requires
            lu == len * u,
    ;
    assert(len * (d * t) == d * lt) by (nonlinear_arith)
        requires
            lt == len * t,
    ;
    assert(lu * dist == top * dist - e * dist) by (nonlinear_arith)
        requires
            lu == top - e,
    ;
    assert(d * lt == d * up - d * f) by (nonlinear_arith)
        requires
            lt == up - f,
    ;
    assert(len * gap == len * (u * dist) - len * (d * t)) by (nonlinear_arith)
        requires
            gap == u * dist - d * t,
    ;
    assert(len * gap == d * f - e * dist);
    let a = if dist < 0 { -dist } else { dist };
    let b = if d < 0 { -d } else { d };
    assert(-(len * b) <= d * f <= len * b) by (nonlinear_arith)
        requires
            -len < f < len,
            b == d || b == -d,
            b >= 0,
    ;
    assert(-(len * a) <= e * dist <= len * a) by (nonlinear_arith)
        requires
            -len < e < len,
            a == dist || a == -dist,
            a >= 0,
    ;
    assert(-(a + b) <= gap <= a + b) by (nonlinear_arith)
        requires
            len * gap == d * f - e * dist,
            -(len * b) <= d * f <= len * b,
            -(len * a) <= e * dist <= len * a,
            len > 0,
    ;
}

/// What a quotient rounded toward zero loses: less than the divisor.
proof fn lemma_quotient_rest(x: int, d: int) -> (e: int)
    requires
        d > 0,
    ensures
        e == x - d * quotient(x, d),
        -d < e < d,
{
    if x >= 0 {
        vstd::arithmetic::div_mod::lemma_fundamental_div_mod(x, d);
        vstd::arithmetic::div_mod::lemma_mod_bound(x, d);
    } else {
        vstd::arithmetic::div_mod::lemma_fundamental_div_mod(-x, d);
        vstd::arithmetic::div_mod::lemma_mod_bound(-x, d);
        assert(d * (-((-x) / d)) == -(d * ((-x) / d))) by (nonlinear_arith);
    }
    x - d * quotient(x, d)
}

impl Sphere {
    /// A hit point is the point of the ray at the parameter of the hit, up
    /// to the rounding of the parameter: where the parameter does not
    /// stick at an end of the range, and no coordinate, no radius and no
    /// component of the direction exceeds `size` raw units, each
    /// component of the hit point lies within `9 size / 2^32 + 2` raw
    /// units of the component of the point at the parameter.
    #[verifier::rlimit(50)]
    pub proof fn lemma_hit_point_on_ray(self, r: Ray, t: Fixed, size: int)
        requires
            r.dir.wf(),
            r.dir != Vec3::origin(),
            0 < size <= 0x800_0000_0000_0000,
            -size <= r.origin.x@ <= size,
            -size <= r.origin.y@ <= size,
            -size <= r.origin.z@ <= size,
            -size <= r.dir.x@ <= size,
            -size <= r.dir.y@ <= size,
            -size <= r.dir.z@ <= size,
            -size <= self.center.x@ <= size,
            -size <= self.center.y@ <= size,
            -size <= self.center.z@ <= size,
            -size <= self.radius@ <= size,
            self.roots(r) matches Some((near, far)) && (t == near || t == far),
            -MAX_RAW < t@ < MAX_RAW,
        ensures
            ({
                let p = self.point_at(r, t);
                let q = r.spec_at(t);
                let slack = 9 * size + 0x2_0000_0000;
                &&& -slack <= ONE_RAW * (p.x@ - q.x@) <= slack
                &&& -slack <= ONE_RAW * (p.y@ - q.y@) <= slack
                &&& -slack <= ONE_RAW * (p.z@ - q.z@) <= slack
            }),
    {
        reveal(Sphere::roots);
        reveal(Sphere::chord);
        let unit = r.dir.spec_unit_vector();
        r.dir.lemma_unit_vector_length();
        let m = r.dir.stretch();
        let len = r.dir.stretched_length();
        let oc = r.origin.minus(self.center);
        let ou = oc.raw_dot(unit);
        let along = quotient(ou, ONE_RAW as int);
        let eps = crate::fixed::lemma_quotient_error(ou);
        let oc2 = oc.raw_dot(oc);
        let apart = if oc2 > along * along {
            oc2 - along * along
        } else {
            0
        };
        let reach = self.radius@ * self.radius@;
        let half_chord = floor_sqrt(reach - apart);
        crate::fixed::lemma_floor_sqrt_exists(reach - apart);
        let pair = self.chord(r)->0;
        let distance = if parameter_at(pair.0, m, len) == t {
            pair.0
        } else {
            pair.1
        };
        assert(t == parameter_at(distance, m, len));
        lemma_bounded_products(oc.x@, unit.x@, size);
        lemma_bounded_products(oc.y@, unit.y@, size);
        lemma_bounded_products(oc.z@, unit.z@, size);
        assert(-6 * size <= along <= 6 * size) by (nonlinear_arith)
            requires
                eps == ou - ONE_RAW * along,
                -ONE_RAW < eps < ONE_RAW,
                ou >= 0 ==> eps >= 0,
                ou <= 0 ==> eps <= 0,
                -6 * size * ONE_RAW <= ou <= 6 * size * ONE_RAW,
                ONE_RAW == 0x1_0000_0000,
        ;
        assert(reach <= size * size) by (nonlinear_arith)
            requires
                reach == self.radius@ * self.radius@,
                -size <= self.radius@ <= size,
        ;
        assert(half_chord <= size) by (nonlinear_arith)
            requires
                half_chord * half_chord <= reach - apart,
                apart >= 0,
                reach <= size * size,
                half_chord >= 0,
                size > 0,
        ;
        assert(-8 * size <= distance <= 8 * size);
        let reached = Fixed::of(distance);
        assert(reached@ == distance);
        assert(t@ == quotient((distance * ONE_RAW) * m, len));
        assert(unit.x@ == quotient((r.dir.x@ * m) * ONE_RAW, len));
        assert(unit.y@ == quotient((r.dir.y@ * m) * ONE_RAW, len));
        assert(unit.z@ == quotient((r.dir.z@ * m) * ONE_RAW, len));
        lemma_on_ray_component(r.dir.x@, distance, m, len, unit.x@, t@, size);
        lemma_on_ray_component(r.dir.y@, distance, m, len, unit.y@, t@, size);
        lemma_on_ray_component(r.dir.z@, distance, m, len, unit.z@, t@, size);
        let gone = unit.scaled(reached);
        let went = r.dir.scaled(t);
        assert(self.point_at(r, t) == r.origin.plus(gone));
        assert(r.spec_at(t) == r.origin.plus(went));
    }
}

/// One component of a hit point against that of the point at the
/// parameter: what is added to the origin is the unit component times
/// the distance in the one and the component times the parameter in the
/// other, both over one.
proof fn lemma_on_ray_component(d: int, distance: int, m: int, len: int, u: int, t: int, size: int)
    requires
        len > 0,
        0 < size <= 0x800_0000_0000_0000,
        -size <= d <= size,
        -8 * size <= distance <= 8 * size,
        -ONE_RAW <= u <= ONE_RAW,
        u == quotient((d * m) * ONE_RAW, len),
        t == quotient((distance * ONE_RAW) * m, len),
    ensures
        -8 * size <= quotient(u * distance, ONE_RAW as int) <= 8 * size,
        -0x7000_0000_0000_0000 <= quotient(d * t, ONE_RAW as int) <= 0x7000_0000_0000_0000,
        -(9 * size + 0x2_0000_0000) <= ONE_RAW * (quotient(u * distance, ONE_RAW as int)
            - quotient(d * t, ONE_RAW as int)) <= 9 * size + 0x2_0000_0000,
{
    lemma_same_product(d, distance, m, len, u, t);
    lemma_close_quotients(u * distance, d * t, 9 * size);
    lemma_went(d, t, distance, size, u);
    let g = quotient(u * distance, ONE_RAW as int);
    let e = crate::fixed::lemma_quotient_error(u * distance);
    assert(-0x1_0000_0000 * (8 * size) <= u * distance <= 0x1_0000_0000 * (8 * size))
        by (nonlinear_arith)
        requires
            -0x1_0000_0000 <= u <= 0x1_0000_0000,
            -8 * size <= distance <= 8 * size,
    ;
    assert(-8 * size <= g <= 8 * size) by (nonlinear_arith)
        requires
            e == u * distance - ONE_RAW * g,
            -ONE_RAW < e < ONE_RAW,
            u * distance >= 0 ==> e >= 0,
            u * distance <= 0 ==> e <= 0,
            -0x1_0000_0000 * (8 * size) <= u * distance <= 0x1_0000_0000 * (8 * size),
            ONE_RAW == 0x1_0000_0000,
    ;
}

/// A component of the direction times the parameter, over one, stays well
/// inside the range where it lies close to the unit component times the
/// distance.
proof fn lemma_went(d: int, t: int, distance: int, size: int, u: int)
    requires
        0 < size <= 0x800_0000_0000_0000,
        -8 * size <= distance <= 8 * size,
        -ONE_RAW <= u <= ONE_RAW,
        -(9 * size + 0x2_0000_0000) <= ONE_RAW * (quotient(u * distance, ONE_RAW as int)
            - quotient(d * t, ONE_RAW as int)) <= 9 * size + 0x2_0000_0000,
    ensures
        -0x7000_0000_0000_0000 <= quotient(d * t, ONE_RAW as int) <= 0x7000_0000_0000_0000,
{
    let g = quotient(u * distance, ONE_RAW as int);
    let e = crate::fixed::lemma_quotient_error(u * distance);
    assert(-0x1_0000_0000 * (8 * size) <= u * distance <= 0x1_0000_0000 * (8 * size))
        by (nonlinear_arith)
        requires
            -0x1_0000_0000 <= u <= 0x1_0000_0000,
            -8 * size <= distance <= 8 * size,
    ;
    assert(-8 * size <= g <= 8 * size) by (nonlinear_arith)
        requires
            e == u * distance - ONE_RAW * g,
            -ONE_RAW < e < ONE_RAW,
            u * distance >= 0 ==> e >= 0,
            u * distance <= 0 ==> e <= 0,
            -0x1_0000_0000 * (8 * size) <= u * distance <= 0x1_0000_0000 * (8 * size),
            ONE_RAW == 0x1_0000_0000,
    ;
    let a = quotient(d * t, ONE_RAW as int);
    assert(-(9 * size + 3) <= g - a <= 9 * size + 3) by (nonlinear_arith)
        requires
            -(9 * size + 0x2_0000_0000) <= ONE_RAW * (g - a) <= 9 * size + 0x2_0000_0000,
            ONE_RAW == 0x1_0000_0000,
            size > 0,
    ;
}

/// A number whose square is at most the square of `most` is at most
/// `most` in magnitude.
proof fn lemma_below_root(q: int, most: int)
    requires
        most >= 0,
        q * q <= most * most,
    ensures
        -most <= q <= most,
{
    if q > most {
        assert(q * q > most * most) by (nonlinear_arith)
            requires
                q > most,
                most >= 0,
        ;
    }
    if q < -most {
        assert(q * q > most * most) by (nonlinear_arith)
            requires
                q < -most,
                most >= 0,
        ;
    }
}

/// The quotient of a coordinate times one by the radius stays in the
/// range where the coordinate is at most `2^10` radii.
proof fn lemma_within_range(q: int, radius: int, most: int)
    requires
        radius > 0,
        most == 0x400 * radius,
        -most <= q <= most,
    ensures
        -0x400 * ONE_RAW <= quotient(q * ONE_RAW, radius) <= 0x400 * ONE_RAW,
{
    let top = q * ONE_RAW;
    let cap = (0x400 * ONE_RAW) * radius;
    assert(-cap <= top <= cap) by (nonlinear_arith)
        requires
            top == q * ONE_RAW,
            cap == (0x400 * ONE_RAW) * radius,
            most == 0x400 * radius,
            -most <= q <= most,
            ONE_RAW > 0,
    ;
    vstd::arithmetic::div_mod::lemma_div_multiples_vanish(0x400 * ONE_RAW, radius);
    if top >= 0 {
        vstd::arithmetic::div_mod::lemma_div_is_ordered(top, cap, radius);
        vstd::arithmetic::div_mod::lemma_div_pos_is_pos(top, radius);
    } else {
        vstd::arithmetic::div_mod::lemma_div_is_ordered(-top, cap, radius);
        vstd::arithmetic::div_mod::lemma_div_pos_is_pos(-top, radius);
    }
}

/// A product of a coordinate seen from the centre with a component of a
/// unit vector is at most twice the size of the scene times one.
proof fn lemma_bounded_products(oc: int, u: int, size: int)
    requires
        -2 * size <= oc <= 2 * size,
        -ONE_RAW <= u <= ONE_RAW,
    ensures
        -2 * size * ONE_RAW <= oc * u <= 2 * size * ONE_RAW,
{
    assert(-2 * size * ONE_RAW <= oc * u <= 2 * size * ONE_RAW) by (nonlinear_arith)
        requires
            -2 * size <= oc <= 2 * size,
            -ONE_RAW <= u <= ONE_RAW,
            ONE_RAW > 0,
    ;
}

} // verus!
