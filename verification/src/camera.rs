//! The camera: from a place on the image plane to a primary ray.
use crate::fixed::{Fixed, ONE_RAW};
use crate::ray::Ray;
use crate::trig::{tan, tangent};
use crate::utils::{deg_2_rad, in_unit_disk, radians, rand_in_unit_disk};
use crate::vec3::Vec3;
use vstd::prelude::*;

verus! {

/// A camera with a thin lens.
#[derive(Clone, Copy, PartialEq, Eq, Structural, Debug)]
pub struct Camera {
    pub(crate) origin: Vec3,
    pub(crate) horizontal: Vec3,
    pub(crate) vertical: Vec3,
    pub(crate) lower_left_corner: Vec3,
    pub(crate) u: Vec3,
    pub(crate) v: Vec3,
    pub(crate) _w: Vec3,
    pub(crate) lens_radius: Fixed,
}

impl Camera {
    /// The camera at `look_from` that looks at `look_at` with `vup`
    /// upward. `w` points from what is looked at to the camera, `u` to the
    /// right and `v` up: `w` is the unit vector of `look_from - look_at`,
    /// `u` that of the cross product of the unit vector of `vup` with `w`,
    /// so that neither the distance to what is looked at nor the length of
    /// `vup` costs precision, and `v` the cross product of `w` and `u`; the image plane lies at `focus_dist`, is twice the
    /// tangent of half the field of view high and `aspect_ratio` times as
    /// wide; the lens has half the aperture as its radius.
    pub open(crate) spec fn looking(
        look_from: Vec3,
        look_at: Vec3,
        vup: Vec3,
        aspect_ratio: Fixed,
        v_fov: Fixed,
        aperture: Fixed,
        focus_dist: Fixed,
    ) -> Camera {
        let theta = radians(v_fov);
        let h = tangent(theta.over(Fixed::whole(2)));
        let viewport_height = Fixed::whole(2).times(h);
        let viewport_width = aspect_ratio.times(viewport_height);
        let w = look_from.minus(look_at).spec_unit_vector();
        let u = vup.spec_unit_vector().spec_cross(w).spec_unit_vector();
        let v = w.spec_cross(u);
        let horizontal = u.scaled(focus_dist.times(viewport_width));
        let vertical = v.scaled(focus_dist.times(viewport_height));
        Camera {
            origin: look_from,
            horizontal,
            vertical,
            lower_left_corner: look_from.minus(horizontal.divided(Fixed::whole(2))).minus(
                vertical.divided(Fixed::whole(2)),
            ).minus(w.scaled(focus_dist)),
            u,
            v,
            _w: w,
            lens_radius: aperture.over(Fixed::whole(2)),
        }
    }

    /// The ray toward the place `(s, t)` of the image plane that starts on
    /// the lens at `lens`, a point of the unit disk, scaled by the lens
    /// radius.
    pub open(crate) spec fn ray_through(self, s: Fixed, t: Fixed, lens: Vec3) -> Ray {
        let rd = lens.scaled(self.lens_radius);
        let offset = self.u.scaled(rd.x).plus(self.v.scaled(rd.y));
        Ray::through(
            self.origin.plus(offset),
            self.lower_left_corner.plus(self.horizontal.scaled(s)).plus(
                self.vertical.scaled(t),
            ).minus(self.origin).minus(offset),
        )
    }

    /// Whether `ray` is a ray toward `(s, t)` from some point of the lens.
    pub open spec fn ray_outcome(self, s: Fixed, t: Fixed, ray: Ray) -> bool {
        exists|lens: Vec3| in_unit_disk(lens) && ray == #[trigger] self.ray_through(s, t, lens)
    }

    /// The camera at `look_from` that looks at `look_at`, with a vertical
    /// field of view of `v_fov` degrees.
    pub fn new(
        look_from: Vec3,
        look_at: Vec3,
        vup: Vec3,
        aspect_ratio: Fixed,
        v_fov: Fixed,
        aperture: Fixed,
        focus_dist: Fixed,
    ) -> (r: Camera)
        ensures
            r == Camera::looking(look_from, look_at, vup, aspect_ratio, v_fov, aperture, focus_dist),
    {
        let theta = deg_2_rad(v_fov);
        let h = tan(theta / Fixed::from_int(2));

        let viewport_height = Fixed::from_int(2) * h;
        let viewport_width = aspect_ratio * viewport_height;

        let w = (look_from - look_at).unit_vector();
        let u = vup.unit_vector().cross(w).unit_vector();
        let v = w.cross(u);

        let origin = look_from;

        let horizontal = (focus_dist * viewport_width) * u;
        let vertical = (focus_dist * viewport_height) * v;
        let lower_left_corner = origin - horizontal / Fixed::from_int(2) - vertical
            / Fixed::from_int(2) - focus_dist * w;

        let lens_radius = aperture / Fixed::from_int(2);
        Camera { origin, horizontal, vertical, lower_left_corner, _w: w, u, v, lens_radius }
    }

    /// The vector of the basis that points from what is looked at to the
    /// camera.
    pub open(crate) spec fn backward(self) -> Vec3 {
        self._w
    }

    /// The vector of the basis that points to the right.
    pub open(crate) spec fn rightward(self) -> Vec3 {
        self.u
    }

    /// The first two vectors of the basis have length one up to rounding,
    /// however close the camera is to what it looks at: the exact sum of
    /// the squares of their raw values lies less than `6 * 2^32 + 3` below
    /// and less than 24 above `2^64`, the square of one. This holds of `w`
    /// for a camera that is not at the place it looks at, and of `u` where
    /// the cross product of the unit vector of `vup` and `w` is not zero.
    pub proof fn lemma_basis_unit(
        look_from: Vec3,
        look_at: Vec3,
        vup: Vec3,
        aspect_ratio: Fixed,
        v_fov: Fixed,
        aperture: Fixed,
        focus_dist: Fixed,
    )
        requires
            look_from.minus(look_at) != Vec3::origin(),
        ensures
            ({
                let cam = Camera::looking(
                    look_from,
                    look_at,
                    vup,
                    aspect_ratio,
                    v_fov,
                    aperture,
                    focus_dist,
                );
                &&& ONE_RAW * ONE_RAW - 6 * ONE_RAW - 3 < cam.backward().raw_dot(cam.backward()) < ONE_RAW * ONE_RAW
                    + 24
                &&& vup.spec_unit_vector().spec_cross(cam.backward()) != Vec3::origin() ==> ONE_RAW
                    * ONE_RAW - 6 * ONE_RAW - 3
                    < cam.rightward().raw_dot(cam.rightward()) < ONE_RAW * ONE_RAW + 24
            }),
    {
        let w = look_from.minus(look_at).spec_unit_vector();
        look_from.minus(look_at).lemma_unit_vector_length();
        if vup.spec_unit_vector().spec_cross(w) != Vec3::origin() {
            vup.spec_unit_vector().spec_cross(w).lemma_unit_vector_length();
        }
    }

    /// The ray toward `(s, t)` that starts on the lens at `lens`.
    pub fn get_ray_from(self, s: Fixed, t: Fixed, lens: Vec3) -> (ray: Ray)
        ensures
            ray == self.ray_through(s, t, lens),
    {
        let rd = self.lens_radius * lens;
        let offset = self.u * rd.x + self.v * rd.y;

        Ray::new(
            self.origin + offset,
            self.lower_left_corner + s * self.horizontal + t * self.vertical - self.origin
                - offset,
        )
    }

    /// A ray toward the place `(s, t)` of the image plane, both in
    /// `[0, 1]`, from a random point of the lens.
    pub fn get_ray(self, s: Fixed, t: Fixed) -> (ray: Ray)
        ensures
            self.ray_outcome(s, t, ray),
    {
        let lens = rand_in_unit_disk();
        self.get_ray_from(s, t, lens)
    }
}

} // verus!
