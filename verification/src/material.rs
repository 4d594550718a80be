//! Surface materials and how they scatter a ray.
use crate::fixed::{floor_sqrt, lemma_quotient_error, quotient, Fixed, ONE_RAW};
use crate::hittable::HitRecord;
use crate::random::{thread_generator, uniform_unit};
use crate::ray::Ray;
use crate::vec3::Vec3;
use core::ops::Neg;
use vstd::prelude::*;

verus! {

/// The closed set of materials.
#[derive(Clone, Copy, PartialEq, Eq, Structural, Debug)]
pub enum Material {
    Lambertian(Lambertian),
    Metal(Metal),
    Dielectric(Dielectric),
}

/// What scatters a ray: from the incoming ray and the hit, the outgoing ray,
/// if there is one, and the colour by which what comes back along it is
/// multiplied.
pub trait Properties: Sized {
    /// Whether `out` is one of the results that scattering may give; which
    /// one comes is left to the random draws.
    spec fn scatters(self, ray: Ray, rec: HitRecord, out: (Option<Ray>, Vec3)) -> bool;

    /// Scatters `ray`, which hit as `rec` says.
    fn scatter(self, ray: &Ray, rec: HitRecord) -> (out: (Option<Ray>, Vec3))
        ensures
            self.scatters(*ray, rec, out),
    ;
}

/// The mirror image of `v` at a surface with normal `n`: `v - 2 (v . n) n`.
pub open spec fn mirrored(v: Vec3, n: Vec3) -> Vec3 {
    v.minus(n.scaled(Fixed::whole(2).times(v.spec_dot(n))))
}

/// A diffuse surface.
#[derive(Clone, Copy, PartialEq, Eq, Structural, Debug)]
pub struct Lambertian {
    pub(crate) albedo: Vec3,
}

impl Lambertian {
    /// The colour that the surface keeps of the light.
    pub open(crate) spec fn albedo(self) -> Vec3 {
        self.albedo
    }

    /// The result of scattering toward `unit`: the ray leaves the hit point
    /// along the normal plus `unit`, or along the normal alone where that
    /// sum is near zero, and carries the albedo.
    pub open spec fn scatter_toward(self, rec: HitRecord, unit: Vec3) -> (Option<Ray>, Vec3) {
        let direction = rec.normal.plus(unit);
        let kept = if direction.spec_near_zero() {
            rec.normal
        } else {
            direction
        };
        (Some(Ray::through(rec.p, kept)), self.albedo())
    }

    /// Whether `out` is the result of scattering toward some unit vector.
    pub open spec fn scatter_outcome(self, rec: HitRecord, out: (Option<Ray>, Vec3)) -> bool {
        exists|p: Vec3| p.in_unit_ball() && out == #[trigger] self.scatter_toward(rec, p.spec_unit_vector())
    }

    /// A diffuse surface with the given albedo.
    pub fn new(_albedo: Vec3) -> (r: Lambertian)
        ensures
            r.albedo() == _albedo,
    {
        Lambertian { albedo: _albedo }
    }

    /// Scatters toward the given unit vector.
    pub fn scatter_with(self, rec: HitRecord, unit: Vec3) -> (out: (Option<Ray>, Vec3))
        ensures
            out == self.scatter_toward(rec, unit),
            out.1 == self.albedo(),
            out.0 matches Some(s) && s.origin == rec.p && (s.dir == rec.normal
                || !s.dir.spec_near_zero()),
    {
        let mut scatter_dir = rec.normal + unit;
        if scatter_dir.near_zero() {
            scatter_dir = rec.normal;
        }
        let scattered = Ray::new(rec.p, scatter_dir);
        let attenuation = self.albedo;
        (Some(scattered), attenuation)
    }
}

impl Lambertian {
    /// Whatever the draw, a diffuse surface scatters from the hit point and
    /// keeps its albedo; the ray leaves along the normal or along a
    /// direction that is not near zero, so never along a direction that is
    /// exactly zero unless the normal is.
    pub proof fn lemma_scatter_outcome(self, rec: HitRecord, out: (Option<Ray>, Vec3))
        requires
            self.scatter_outcome(rec, out),
        ensures
            out.1 == self.albedo(),
            out.0 matches Some(s) && s.origin == rec.p && (s.dir == rec.normal
                || !s.dir.spec_near_zero()) && (rec.normal != Vec3::origin() ==> s.dir
                != Vec3::origin()),
    {
    }
}

impl Properties for Lambertian {
    open spec fn scatters(self, ray: Ray, rec: HitRecord, out: (Option<Ray>, Vec3)) -> bool {
        self.scatter_outcome(rec, out)
    }

    fn scatter(self, _ray: &Ray, rec: HitRecord) -> (out: (Option<Ray>, Vec3)) {
        let unit = Vec3::rand_unit_vec();
        self.scatter_with(rec, unit)
    }
}

/// A mirroring surface, blurred by `fuzz`, which is at most one.
#[derive(Clone, Copy, PartialEq, Eq, Structural, Debug)]
pub struct Metal {
    pub(crate) albedo: Vec3,
    pub(crate) fuzz: Fixed,
}

impl Metal {
    /// The fuzz never exceeds one.
    #[verifier::type_invariant]
    pub open(crate) spec fn wf(self) -> bool {
        self.fuzz@ <= ONE_RAW
    }

    /// The colour that the surface keeps of the light.
    pub open(crate) spec fn albedo(self) -> Vec3 {
        self.albedo
    }

    /// How far the mirror image is blurred, at most one.
    pub open(crate) spec fn fuzz(self) -> Fixed {
        self.fuzz
    }

    /// The result of scattering with the perturbation `shift`: the ray
    /// leaves the hit point along the mirror image of the incoming unit
    /// direction plus `fuzz` times `shift`, and carries the albedo.
    pub open spec fn scatter_shifted(self, ray: Ray, rec: HitRecord, shift: Vec3) -> (
        Option<Ray>,
        Vec3,
    ) {
        let reflected = mirrored(ray.dir.spec_unit_vector(), rec.normal);
        (Some(Ray::through(rec.p, reflected.plus(shift.scaled(self.fuzz())))), self.albedo())
    }

    /// Whether `out` is the result of scattering with some perturbation
    /// from the unit ball.
    pub open spec fn scatter_outcome(self, ray: Ray, rec: HitRecord, out: (Option<Ray>, Vec3)) -> bool {
        exists|p: Vec3| p.in_unit_ball() && out == #[trigger] self.scatter_shifted(ray, rec, p)
    }

    /// A metal with the given albedo; a fuzz of one or more counts as one.
    pub fn new(albedo: Vec3, fuzz: Fixed) -> (r: Metal)
        ensures
            r.albedo() == albedo,
            r.fuzz() == fuzz.lesser(Fixed::whole(1)),
    {
        Metal {
            albedo,
            fuzz: if fuzz.lt(Fixed::one()) {
                fuzz
            } else {
                Fixed::one()
            },
        }
    }

    /// The mirror image of `v` at a surface with normal `n`.
    pub fn reflect(v: Vec3, n: Vec3) -> (r: Vec3)
        ensures
            r == mirrored(v, n),
    {
        v - (Fixed::from_int(2) * v.dot(n)) * n
    }

    /// Scatters with the given perturbation. With a fuzz of zero the ray
    /// leaves along the exact mirror image of the incoming unit direction.
    pub fn scatter_with(self, ray: &Ray, rec: HitRecord, shift: Vec3) -> (out: (Option<Ray>, Vec3))
        ensures
            out == self.scatter_shifted(*ray, rec, shift),
            out.1 == self.albedo(),
            out.0 matches Some(s) && s.origin == rec.p && (self.fuzz()@ == 0 ==> s.dir == mirrored(
                ray.dir.spec_unit_vector(),
                rec.normal,
            )),
    {
        let reflect = Metal::reflect(ray.dir.unit_vector(), rec.normal);
        let scattered = Ray::new(rec.p, reflect + self.fuzz * shift);
        let attenuation = self.albedo;
        proof {
            if self.fuzz@ == 0 {
                Metal::lemma_polished(*ray, rec.normal, shift, self.fuzz);
            }
        }
        (Some(scattered), attenuation)
    }

    /// Without fuzz nothing is added to the mirror image.
    pub proof fn lemma_polished(ray: Ray, normal: Vec3, shift: Vec3, fuzz: Fixed)
        requires
            fuzz@ == 0,
        ensures
            mirrored(ray.dir.spec_unit_vector(), normal).plus(shift.scaled(fuzz)) == mirrored(
                ray.dir.spec_unit_vector(),
                normal,
            ),
    {
        shift.lemma_scaled_zero();
        let m = mirrored(ray.dir.spec_unit_vector(), normal);
        m.x.lemma_plus_zero();
        m.y.lemma_plus_zero();
        m.z.lemma_plus_zero();
    }
}

impl Metal {
    /// Whatever the draw, a metal without fuzz scatters along the exact
    /// mirror image of the incoming unit direction, and keeps its albedo.
    pub proof fn lemma_polished_outcome(self, ray: Ray, rec: HitRecord, out: (Option<Ray>, Vec3))
        requires
            self.scatter_outcome(ray, rec, out),
            self.fuzz()@ == 0,
        ensures
            out == (
                Some(Ray::through(rec.p, mirrored(ray.dir.spec_unit_vector(), rec.normal))),
                self.albedo(),
            ),
    {
        let p = choose|p: Vec3| p.in_unit_ball() && out == #[trigger] self.scatter_shifted(ray, rec, p);
        Metal::lemma_polished(ray, rec.normal, p, self.fuzz());
    }
}

impl Properties for Metal {
    open spec fn scatters(self, ray: Ray, rec: HitRecord, out: (Option<Ray>, Vec3)) -> bool {
        self.scatter_outcome(ray, rec, out)
    }

    fn scatter(self, _ray: &Ray, rec: HitRecord) -> (out: (Option<Ray>, Vec3)) {
        let shift = Vec3::rand_in_unit_sphere();
        self.scatter_with(_ray, rec, shift)
    }
}

/// A clear refracting material with the given refractive index.
#[derive(Clone, Copy, PartialEq, Eq, Structural, Debug)]
pub struct Dielectric {
    pub(crate) ir: Fixed,
}

impl Dielectric {
    /// The refractive index.
    pub open(crate) spec fn ir(self) -> Fixed {
        self.ir
    }

    /// The ratio of the refractive indices that a ray meets: one over the
    /// index on the way in, the index on the way out.
    pub open spec fn refraction_ratio(self, front_face: bool) -> Fixed {
        if front_face {
            Fixed::whole(1).over(self.ir())
        } else {
            self.ir()
        }
    }

    /// The cosine of the angle between the reversed unit direction `uv` and
    /// the normal `n`, at most one.
    pub open spec fn cosine(uv: Vec3, n: Vec3) -> Fixed {
        uv.negated().spec_dot(n).lesser(Fixed::whole(1))
    }

    /// The direction of the ray refracted at a surface with normal `n`, by
    /// Snell's law.
    pub open spec fn refracted(uv: Vec3, n: Vec3, etai_over_etat: Fixed) -> Vec3 {
        let cos_theta = Dielectric::cosine(uv, n);
        let r_out_perp = uv.plus(n.scaled(cos_theta)).scaled(etai_over_etat);
        let r_out_parallel = n.scaled(
            Fixed::whole(-1).times(
                Fixed::whole(1).minus(r_out_perp.spec_length_squared()).magnitude().root(),
            ),
        );
        r_out_perp.plus(r_out_parallel)
    }

    /// Schlick's approximation of the share of light that is reflected.
    pub open spec fn schlick(cosine: Fixed, ref_idx: Fixed) -> Fixed {
        let q = Fixed::whole(1).minus(ref_idx).over(Fixed::whole(1).plus(ref_idx));
        let r0 = q.times(q);
        let c = Fixed::whole(1).minus(cosine);
        r0.plus(Fixed::whole(1).minus(r0).times(c.times(c).times(c).times(c).times(c)))
    }

    /// Whether a ray along the unit direction `uv` is reflected for the
    /// uniform draw `draw`: when Snell's law has no solution, or with the
    /// probability that Schlick's approximation gives.
    pub open spec fn reflects(uv: Vec3, n: Vec3, ratio: Fixed, draw: Fixed) -> bool {
        let cos_theta = Dielectric::cosine(uv, n);
        let sin_theta = Fixed::whole(1).minus(cos_theta.times(cos_theta)).root();
        ratio.times(sin_theta)@ > ONE_RAW || draw@ < Dielectric::schlick(cos_theta, ratio)@
    }

    /// The result of scattering for the uniform draw `draw`: the ray leaves
    /// the hit point reflected or refracted, and nothing is absorbed.
    pub open spec fn scatter_drawn(self, ray: Ray, rec: HitRecord, draw: Fixed) -> (
        Option<Ray>,
        Vec3,
    ) {
        let ratio = self.refraction_ratio(rec.front_face);
        let uv = ray.dir.spec_unit_vector();
        let direction = if Dielectric::reflects(uv, rec.normal, ratio, draw) {
            mirrored(uv, rec.normal)
        } else {
            Dielectric::refracted(uv, rec.normal, ratio)
        };
        (
            Some(Ray::through(rec.p, direction)),
            Vec3 { x: Fixed::whole(1), y: Fixed::whole(1), z: Fixed::whole(1) },
        )
    }

    /// Whether `out` is the result of scattering for some draw from
    /// `[0, 1)`.
    pub open spec fn scatter_outcome(self, ray: Ray, rec: HitRecord, out: (Option<Ray>, Vec3)) -> bool {
        exists|draw: Fixed|
            0 <= draw@ < ONE_RAW && out == #[trigger] self.scatter_drawn(ray, rec, draw)
    }

    /// Glass with the given refractive index.
    pub fn new(ir: Fixed) -> (r: Dielectric)
        ensures
            r.ir() == ir,
    {
        Dielectric { ir }
    }

    /// The mirror image of `v` at a surface with normal `n`.
    pub fn reflect(v: &Vec3, n: &Vec3) -> (r: Vec3)
        ensures
            r == mirrored(*v, *n),
    {
        *v - (Fixed::from_int(2) * v.dot(*n)) * *n
    }

    /// The unit direction `uv` refracted at a surface with normal `n`,
    /// for the given ratio of the refractive indices.
    pub fn refract(uv: &Vec3, n: &Vec3, etai_over_etat: Fixed) -> (r: Vec3)
        ensures
            r == Dielectric::refracted(*uv, *n, etai_over_etat),
    {
        let cos_theta = uv.neg().dot(*n).min(Fixed::one());
        let r_out_perp = etai_over_etat * (*uv + *n * cos_theta);
        let r_out_parallel = (Fixed::from_int(-1) * (Fixed::one()
            - r_out_perp.length_squared()).abs().sqrt()) * *n;
        r_out_perp + r_out_parallel
    }

    /// The share of light that is reflected, by Schlick's approximation.
    pub fn reflectance(cosine: Fixed, ref_idx: Fixed) -> (r: Fixed)
        ensures
            r == Dielectric::schlick(cosine, ref_idx),
    {
        let mut r0 = (Fixed::one() - ref_idx) / (Fixed::one() + ref_idx);
        r0 = r0 * r0;
        let c = Fixed::one() - cosine;
        r0 + (Fixed::one() - r0) * (c * c * c * c * c)
    }

    /// Scatters for the given uniform draw.
    pub fn scatter_with(self, r: &Ray, rec: HitRecord, draw: Fixed) -> (out: (Option<Ray>, Vec3))
        ensures
            out == self.scatter_drawn(*r, rec, draw),
            out.0 matches Some(s) && s.origin == rec.p,
            out.1 == (Vec3 { x: Fixed::whole(1), y: Fixed::whole(1), z: Fixed::whole(1) }),
    {
        let attenuation = Vec3::new(Fixed::one(), Fixed::one(), Fixed::one());
        let refraction_ratio = if rec.front_face {
            Fixed::one() / self.ir
        } else {
            self.ir
        };
        let unit_dir = r.dir.unit_vector();
        let cos_theta = unit_dir.neg().dot(rec.normal).min(Fixed::one());
        let sin_theta = (Fixed::one() - cos_theta * cos_theta).sqrt();
        let cannot_refract = (refraction_ratio * sin_theta).gt(Fixed::one());
        let dir = if cannot_refract || draw.lt(Dielectric::reflectance(cos_theta, refraction_ratio)) {
            Dielectric::reflect(&unit_dir, &rec.normal)
        } else {
            Dielectric::refract(&unit_dir, &rec.normal, refraction_ratio)
        };
        let scattered = Ray::new(rec.p, dir);
        (Some(scattered), attenuation)
    }

    /// With a refractive index of one the ratio is one on the way in and on
    /// the way out.
    pub proof fn lemma_unit_index_ratio(self, front_face: bool)
        requires
            self.ir() == Fixed::whole(1),
        ensures
            self.refraction_ratio(front_face) == Fixed::whole(1),
    {
        Fixed::whole(1).lemma_over_one();
    }
}

impl Dielectric {
    /// A ray that meets a surface head-on, against a normal of length
    /// one, is not bent where the ratio of the indices is one.
    pub proof fn lemma_head_on_unbent(n: Vec3)
        requires
            n.wf(),
            n.spec_dot(n) == Fixed::whole(1),
        ensures
            Dielectric::refracted(n.negated(), n, Fixed::whole(1)) == n.negated(),
    {
        let one = Fixed::whole(1);
        let zero = Fixed::whole(0);
        let uv = n.negated();
        assert(uv.negated() == n);
        assert(Dielectric::cosine(uv, n) == one);
        n.x.lemma_times_one();
        n.y.lemma_times_one();
        n.z.lemma_times_one();
        assert(n.scaled(one) == n);
        assert(uv.plus(n) == Vec3::origin());
        one.lemma_times_zero();
        zero.lemma_times_zero();
        let r_out_perp = uv.plus(n.scaled(one)).scaled(one);
        assert(r_out_perp == Vec3::origin());
        Vec3::lemma_origin_in_ball();
        assert(r_out_perp.spec_length_squared() == zero);
        assert(one.minus(zero).magnitude() == one);
        crate::fixed::lemma_floor_sqrt_exists(one@ * ONE_RAW);
        crate::fixed::lemma_floor_sqrt_unique(
            one@ * ONE_RAW,
            crate::fixed::floor_sqrt(one@ * ONE_RAW),
            ONE_RAW as int,
        );
        assert(one.root() == one);
        Fixed::whole(-1).lemma_times_one();
        n.x.lemma_times_negated(one);
        n.y.lemma_times_negated(one);
        n.z.lemma_times_negated(one);
        assert(n.scaled(Fixed::whole(-1)) == uv);
        uv.x.lemma_plus_zero();
        uv.y.lemma_plus_zero();
        uv.z.lemma_plus_zero();
    }

    /// Whatever the draw, glass scatters from the hit point and loses
    /// nothing.
    pub proof fn lemma_lossless(self, ray: Ray, rec: HitRecord, out: (Option<Ray>, Vec3))
        requires
            self.scatter_outcome(ray, rec, out),
        ensures
            out.0 matches Some(s) && s.origin == rec.p,
            out.1 == (Vec3 { x: Fixed::whole(1), y: Fixed::whole(1), z: Fixed::whole(1) }),
    {
    }
}

impl Properties for Dielectric {
    open spec fn scatters(self, ray: Ray, rec: HitRecord, out: (Option<Ray>, Vec3)) -> bool {
        self.scatter_outcome(ray, rec, out)
    }

    fn scatter(self, r: &Ray, rec: HitRecord) -> (out: (Option<Ray>, Vec3)) {
        let mut rng = thread_generator();
        let draw = uniform_unit(&mut rng);
        self.scatter_with(r, rec, draw)
    }
}

impl Material {
    /// Whether `out` is one of the results that the variant's scattering
    /// may give.
    pub open spec fn scatter_outcome(self, ray: Ray, rec: HitRecord, out: (Option<Ray>, Vec3)) -> bool {
        match self {
            Material::Lambertian(l) => l.scatter_outcome(rec, out),
            Material::Metal(m) => m.scatter_outcome(ray, rec, out),
            Material::Dielectric(d) => d.scatter_outcome(ray, rec, out),
        }
    }
}

impl Material {
    /// Every material scatters every ray, from the hit point.
    pub proof fn lemma_always_scatters(self, ray: Ray, rec: HitRecord, out: (Option<Ray>, Vec3))
        requires
            self.scatter_outcome(ray, rec, out),
        ensures
            out.0 matches Some(s) && s.origin == rec.p,
    {
        match self {
            Material::Lambertian(l) => l.lemma_scatter_outcome(rec, out),
            Material::Metal(_) => {},
            Material::Dielectric(d) => d.lemma_lossless(ray, rec, out),
        }
    }
}

/// What one scattering may draw: a unit vector for a diffuse surface, a
/// vector of the unit ball for a metal, and a number of `[0, 1)` for glass.
#[derive(Clone, Copy, PartialEq, Eq, Structural, Debug)]
pub struct Draw {
    pub unit: Vec3,
    pub shift: Vec3,
    pub share: Fixed,
}

impl Draw {
    /// Whether the draw is one that the generator may give: the unit
    /// vector is that of a vector of the unit ball, the shift lies in the
    /// unit ball and the share in `[0, 1)`.
    pub open spec fn admissible(self) -> bool {
        &&& exists|p: Vec3| p.in_unit_ball() && self.unit == #[trigger] p.spec_unit_vector()
        &&& self.shift.in_unit_ball()
        &&& 0 <= self.share@ < ONE_RAW
    }
}

impl Material {
    /// The result of scattering for the given draw.
    pub open spec fn scatter_for(self, ray: Ray, rec: HitRecord, draw: Draw) -> (
        Option<Ray>,
        Vec3,
    ) {
        match self {
            Material::Lambertian(l) => l.scatter_toward(rec, draw.unit),
            Material::Metal(m) => m.scatter_shifted(ray, rec, draw.shift),
            Material::Dielectric(d) => d.scatter_drawn(ray, rec, draw.share),
        }
    }

    /// Scatters for the given draw: the same ray, hit and draw give the
    /// same result.
    pub fn scatter_with(self, ray: &Ray, rec: HitRecord, draw: Draw) -> (out: (Option<Ray>, Vec3))
        ensures
            out == self.scatter_for(*ray, rec, draw),
            out.0 is Some,
    {
        match self {
            Material::Lambertian(l) => l.scatter_with(rec, draw.unit),
            Material::Metal(m) => m.scatter_with(ray, rec, draw.shift),
            Material::Dielectric(d) => d.scatter_with(ray, rec, draw.share),
        }
    }

    /// What an admissible draw gives is one of the results that
    /// scattering may give.
    pub proof fn lemma_drawn_is_outcome(self, ray: Ray, rec: HitRecord, draw: Draw)
        requires
            draw.admissible(),
        ensures
            self.scatter_outcome(ray, rec, self.scatter_for(ray, rec, draw)),
            self.scatter_for(ray, rec, draw).0 is Some,
    {
        match self {
            Material::Lambertian(l) => {
                let p = choose|p: Vec3|
                    p.in_unit_ball() && draw.unit == #[trigger] p.spec_unit_vector();
                assert(l.scatter_toward(rec, draw.unit) == l.scatter_toward(
                    rec,
                    p.spec_unit_vector(),
                ));
            },
            Material::Metal(m) => {
                assert(m.scatter_outcome(ray, rec, m.scatter_shifted(ray, rec, draw.shift)));
            },
            Material::Dielectric(d) => {
                assert(d.scatter_outcome(ray, rec, d.scatter_drawn(ray, rec, draw.share)));
            },
        }
    }

    /// Whether the material keeps at most what it gets of every colour:
    /// each component of its albedo lies in `[0, 1]`.
    pub open spec fn keeps_energy(self) -> bool {
        match self {
            Material::Lambertian(l) => l.albedo().in_unit_cube(),
            Material::Metal(m) => m.albedo().in_unit_cube(),
            Material::Dielectric(_) => true,
        }
    }

    /// A material that keeps at most what it gets attenuates by a colour
    /// of `[0, 1]`, and the ray that it scatters has a well-formed
    /// direction.
    pub proof fn lemma_scatter_keeps_energy(
        self,
        ray: Ray,
        rec: HitRecord,
        out: (Option<Ray>, Vec3),
    )
        requires
            self.scatter_outcome(ray, rec, out),
            self.keeps_energy(),
            rec.normal.wf(),
        ensures
            out.1.in_unit_cube(),
            out.0 matches Some(s) && s.dir.wf(),
    {
    }
}

impl Properties for Material {
    open spec fn scatters(self, ray: Ray, rec: HitRecord, out: (Option<Ray>, Vec3)) -> bool {
        self.scatter_outcome(ray, rec, out)
    }

    fn scatter(self, ray: &Ray, rec: HitRecord) -> (out: (Option<Ray>, Vec3)) {
        match self {
            Material::Lambertian(l) => l.scatter(ray, rec),
            Material::Metal(m) => m.scatter(ray, rec),
            Material::Dielectric(d) => d.scatter(ray, rec),
        }
    }
}

} // verus!

verus! {

/// One component of the squared length of `uv + n c`, times the square of
/// one, against its exact value.
proof fn lemma_perp_component(a: int, n: int, c: int, m: int) -> (d: int)
    requires
        -ONE_RAW <= a <= ONE_RAW,
        -ONE_RAW <= n <= ONE_RAW,
        0 <= c <= ONE_RAW,
        m == quotient(n * c, ONE_RAW as int),
    ensures
        d == (ONE_RAW * ONE_RAW) * ((a + m) * (a + m)) - ((ONE_RAW * ONE_RAW) * (a * a) + (2
            * ONE_RAW) * (c * (a * n)) + (c * c) * (n * n)),
        -0x4_0000_0000_0000_0000_0000_0000 <= d <= 0x4_0000_0001_0000_0000_0000_0000,
        -ONE_RAW <= m <= ONE_RAW,
{
    let e = lemma_quotient_error(n * c);
    let big = ONE_RAW * a + n * c;
    assert(-0x1_0000_0000_0000_0000 <= n * c <= 0x1_0000_0000_0000_0000) by (nonlinear_arith)
        requires
            -0x1_0000_0000 <= n <= 0x1_0000_0000,
            0 <= c <= 0x1_0000_0000,
    ;
    assert(ONE_RAW * (a + m) == big - e) by (nonlinear_arith)
        requires
            e == n * c - ONE_RAW * m,
            big == ONE_RAW * a + n * c,
    ;
    assert(-ONE_RAW <= m <= ONE_RAW) by (nonlinear_arith)
        requires
            e == n * c - ONE_RAW * m,
            -ONE_RAW < e < ONE_RAW,
            -0x1_0000_0000_0000_0000 <= n * c <= 0x1_0000_0000_0000_0000,
            ONE_RAW == 0x1_0000_0000,
    ;
    assert(-0x1_0000_0000_0000_0000 <= ONE_RAW * a <= 0x1_0000_0000_0000_0000) by (nonlinear_arith)
        requires
            -ONE_RAW <= a <= ONE_RAW,
            ONE_RAW == 0x1_0000_0000,
    ;
    assert(-0x2_0000_0000_0000_0000 <= big <= 0x2_0000_0000_0000_0000);
    let left = (ONE_RAW * ONE_RAW) * ((a + m) * (a + m));
    assert(left == (big - e) * (big - e)) by (nonlinear_arith)
        requires
            left == (ONE_RAW * ONE_RAW) * ((a + m) * (a + m)),
            ONE_RAW * (a + m) == big - e,
    ;
    assert((big - e) * (big - e) == big * big - 2 * (e * big) + e * e) by (nonlinear_arith);
    assert(big * big == (ONE_RAW * ONE_RAW) * (a * a) + (2 * ONE_RAW) * (c * (a * n)) + (c * c)
        * (n * n)) by (nonlinear_arith)
        requires
            big == ONE_RAW * a + n * c,
    ;
    assert(-0x2_0000_0000_0000_0000_0000_0000 <= e * big <= 0x2_0000_0000_0000_0000_0000_0000)
        by (nonlinear_arith)
        requires
            -0x1_0000_0000 < e < 0x1_0000_0000,
            -0x2_0000_0000_0000_0000 <= big <= 0x2_0000_0000_0000_0000,
    ;
    assert(0 <= e * e <= 0x1_0000_0000_0000_0000) by (nonlinear_arith)
        requires
            -0x1_0000_0000 < e < 0x1_0000_0000,
    ;
    left - big * big
}

/// Two numbers that are not negative and whose squares lie within `2^38`
/// of one another, one of them up to the next square, lie within `2^19`
/// of one another.
proof fn lemma_close_roots(c: int, s: int, w: int)
    requires
        0 <= c,
        0 <= s,
        s * s <= w < (s + 1) * (s + 1),
        -0x40_0000_0000 < w - c * c < 0x40_0000_0000,
    ensures
        -0x8_0000 <= s - c <= 0x8_0000,
{
    if s > c + 0x8_0000 {
        assert(s * s >= c * c + 0x40_0000_0000) by (nonlinear_arith)
            requires
                s > c + 0x8_0000,
                c >= 0,
        ;
    }
    if c > s + 0x8_0000 {
        assert(c * c >= (s + 1) * (s + 1) + 0x40_0000_0000) by (nonlinear_arith)
            requires
                c >= s + 1 + 0x8_0000,
                s >= 0,
        ;
    }
}

/// The products of one number of `[-1, 1]` with two numbers that lie
/// within `2^19` of one another lie within `2^19 + 1` of one another.
proof fn lemma_close_products(n: int, c: int, s: int)
    requires
        -ONE_RAW <= n <= ONE_RAW,
        -0x8_0000 <= s - c <= 0x8_0000,
    ensures
        -0x8_0001 <= quotient(n * c, ONE_RAW as int) - quotient(n * s, ONE_RAW as int) <= 0x8_0001,
{
    let e = lemma_quotient_error(n * c);
    let f = lemma_quotient_error(n * s);
    let diff = quotient(n * c, ONE_RAW as int) - quotient(n * s, ONE_RAW as int);
    assert(ONE_RAW * diff == n * (c - s) - e + f) by (nonlinear_arith)
        requires
            e == n * c - ONE_RAW * quotient(n * c, ONE_RAW as int),
            f == n * s - ONE_RAW * quotient(n * s, ONE_RAW as int),
            diff == quotient(n * c, ONE_RAW as int) - quotient(n * s, ONE_RAW as int),
    ;
    assert(-0x8_0000 * ONE_RAW <= n * (c - s) <= 0x8_0000 * ONE_RAW) by (nonlinear_arith)
        requires
            -ONE_RAW <= n <= ONE_RAW,
            -0x8_0000 <= c - s <= 0x8_0000,
            ONE_RAW > 0,
    ;
    assert(-0x8_0001 <= diff <= 0x8_0001) by (nonlinear_arith)
        requires
            ONE_RAW * diff == n * (c - s) - e + f,
            -0x8_0000 * ONE_RAW <= n * (c - s) <= 0x8_0000 * ONE_RAW,
            -ONE_RAW < e < ONE_RAW,
            -ONE_RAW < f < ONE_RAW,
            ONE_RAW == 0x1_0000_0000,
    ;
}

/// The squared length of `uv + n c` against one minus the square of the
/// cosine `c`, for vectors of length one up to rounding: all in raw
/// units, `u2` and `n2` the squared lengths, `dn` the dot product, `rho`
/// what the cosine loses of it, `perp2` the squared length in question and
/// `dsum` what the rounding of `n c` adds to it.
proof fn lemma_perp_length(u2: int, n2: int, dn: int, c: int, rho: int, perp2: int, dsum: int)
    requires
        0x1_0000_0000_0000_0000 * perp2 == 0x1_0000_0000_0000_0000 * u2 + 0x2_0000_0000 * (c * dn)
            + (c * c) * n2 + dsum,
        -dn == 0x1_0000_0000 * c + rho,
        0 <= rho <= 0x8_0000_0000,
        0 <= c <= 0x1_0000_0000,
        -0x8_0000_0000 <= u2 - 0x1_0000_0000_0000_0000 <= 0x8_0000_0000,
        -0x8_0000_0000 <= n2 - 0x1_0000_0000_0000_0000 <= 0x8_0000_0000,
        -0xc_0000_0000_0000_0000_0000_0000 <= dsum <= 0xc_0000_0003_0000_0000_0000_0000,
    ensures
        -0x2c_0000_0000 <= perp2 - 0x1_0000_0000_0000_0000 + c * c <= 0x1c_0000_0003,
{
    let cc = c * c;
    let crho = c * rho;
    let excess = n2 - 0x1_0000_0000_0000_0000;
    let cce = cc * excess;
    assert(0 <= cc <= 0x1_0000_0000_0000_0000) by (nonlinear_arith)
        requires
            cc == c * c,
            0 <= c <= 0x1_0000_0000,
    ;
    assert(0 <= crho <= 0x8_0000_0000_0000_0000) by (nonlinear_arith)
        requires
            crho == c * rho,
            0 <= c <= 0x1_0000_0000,
            0 <= rho <= 0x8_0000_0000,
    ;
    assert(-0x8_0000_0000_0000_0000_0000_0000 <= cce <= 0x8_0000_0000_0000_0000_0000_0000)
        by (nonlinear_arith)
        requires
            cce == cc * excess,
            0 <= cc <= 0x1_0000_0000_0000_0000,
            -0x8_0000_0000 <= excess <= 0x8_0000_0000,
    ;
    assert(c * dn == -(0x1_0000_0000 * cc + crho)) by (nonlinear_arith)
        requires
            -dn == 0x1_0000_0000 * c + rho,
            cc == c * c,
            crho == c * rho,
    ;
    assert(cc * n2 == 0x1_0000_0000_0000_0000 * cc + cce) by (nonlinear_arith)
        requires
            cce == cc * excess,
            excess == n2 - 0x1_0000_0000_0000_0000,
    ;
    assert((c * c) * n2 == cc * n2);
}

impl Dielectric {
    /// Where the ratio of the indices is one, a ray that meets the front
    /// of a surface is not bent, up to rounding: for a unit direction `uv`
    /// and a unit normal `n` that opposes it, both of length one up to
    /// `8 * 2^32` raw units of the squared length, which is more than a
    /// unit vector is off, every component of the refracted direction
    /// lies within `2^19 + 1` raw units, which is `1.3 * 10^-4`, of the
    /// component of `uv`. The bound is reached only by rays that graze
    /// the surface, where the root of a difference of squares doubles the
    /// number of bits that the rounding has cost.
    pub proof fn lemma_unit_index_unbent(uv: Vec3, n: Vec3)
        requires
            uv.wf(),
            n.wf(),
            uv.within_unit(),
            n.within_unit(),
            -8 * ONE_RAW <= uv.raw_dot(uv) - ONE_RAW * ONE_RAW <= 8 * ONE_RAW,
            -8 * ONE_RAW <= n.raw_dot(n) - ONE_RAW * ONE_RAW <= 8 * ONE_RAW,
            0 <= uv.negated().raw_dot(n),
        ensures
            ({
                let r = Dielectric::refracted(uv, n, Fixed::whole(1));
                &&& -0x8_0001 <= r.x@ - uv.x@ <= 0x8_0001
                &&& -0x8_0001 <= r.y@ - uv.y@ <= 0x8_0001
                &&& -0x8_0001 <= r.z@ - uv.z@ <= 0x8_0001
            }),
    {
        let one = Fixed::whole(1);
        assert(ONE_RAW * ONE_RAW == 0x1_0000_0000_0000_0000) by (nonlinear_arith)
            requires
                ONE_RAW == 0x1_0000_0000,
        ;
        uv.lemma_dot_negated(n);
        let dn = uv.raw_dot(n);
        let d = -dn;
        uv.lemma_dot_bound(n);
        let most = 0x1_0000_0000_0000_0000 + 8 * ONE_RAW;
        assert(uv.raw_dot(uv) * n.raw_dot(n) <= most * most) by (nonlinear_arith)
            requires
                0 <= uv.raw_dot(uv) <= most,
                0 <= n.raw_dot(n) <= most,
        ;
        assert(d * d == dn * dn) by (nonlinear_arith)
            requires
                d == -dn,
        ;
        if d > most {
            assert(d * d > most * most) by (nonlinear_arith)
                requires
                    d > most,
                    most > 0,
            ;
        }
        let e = lemma_quotient_error(d);
        let c0 = quotient(d, ONE_RAW as int);
        assert(0 <= c0 <= ONE_RAW + 8) by (nonlinear_arith)
            requires
                e == d - ONE_RAW * c0,
                0 <= e < ONE_RAW,
                0 <= d <= 0x1_0000_0000_0000_0000 + 8 * ONE_RAW,
                ONE_RAW == 0x1_0000_0000,
        ;
        let cosine = Dielectric::cosine(uv, n);
        let c = cosine@;
        assert(uv.negated().spec_dot(n)@ == c0);
        assert(c == if c0 > ONE_RAW { ONE_RAW as int } else { c0 });
        let rho = d - ONE_RAW * c;
        assert(0 <= rho <= 8 * ONE_RAW);
        let towards = n.scaled(cosine);
        let dx = lemma_perp_component(uv.x@, n.x@, c, quotient(n.x@ * c, ONE_RAW as int));
        let dy = lemma_perp_component(uv.y@, n.y@, c, quotient(n.y@ * c, ONE_RAW as int));
        let dz = lemma_perp_component(uv.z@, n.z@, c, quotient(n.z@ * c, ONE_RAW as int));
        assert(towards.x@ == quotient(n.x@ * c, ONE_RAW as int));
        assert(towards.y@ == quotient(n.y@ * c, ONE_RAW as int));
        assert(towards.z@ == quotient(n.z@ * c, ONE_RAW as int));
        let sum = uv.plus(towards);
        assert(sum.x@ == uv.x@ + towards.x@);
        assert(sum.y@ == uv.y@ + towards.y@);
        assert(sum.z@ == uv.z@ + towards.z@);
        sum.x.lemma_times_one();
        sum.y.lemma_times_one();
        sum.z.lemma_times_one();
        let perp = sum.scaled(one);
        assert(perp == sum);
        let perp2 = perp.raw_dot(perp);
        let u2 = uv.raw_dot(uv);
        let n2 = n.raw_dot(n);
        assert(0x1_0000_0000_0000_0000 * perp2 == 0x1_0000_0000_0000_0000 * u2 + 0x2_0000_0000 * (c
            * dn) + (c * c) * n2 + (dx + dy + dz)) by (nonlinear_arith)
            requires
                perp2 == sum.x@ * sum.x@ + sum.y@ * sum.y@ + sum.z@ * sum.z@,
                u2 == uv.x@ * uv.x@ + uv.y@ * uv.y@ + uv.z@ * uv.z@,
                n2 == n.x@ * n.x@ + n.y@ * n.y@ + n.z@ * n.z@,
                dn == uv.x@ * n.x@ + uv.y@ * n.y@ + uv.z@ * n.z@,
                dx == 0x1_0000_0000_0000_0000 * (sum.x@ * sum.x@) - (0x1_0000_0000_0000_0000 * (
                uv.x@ * uv.x@) + 0x2_0000_0000 * (c * (uv.x@ * n.x@)) + (c * c) * (n.x@ * n.x@)),
                dy == 0x1_0000_0000_0000_0000 * (sum.y@ * sum.y@) - (0x1_0000_0000_0000_0000 * (
                uv.y@ * uv.y@) + 0x2_0000_0000 * (c * (uv.y@ * n.y@)) + (c * c) * (n.y@ * n.y@)),
                dz == 0x1_0000_0000_0000_0000 * (sum.z@ * sum.z@) - (0x1_0000_0000_0000_0000 * (
                uv.z@ * uv.z@) + 0x2_0000_0000 * (c * (uv.z@ * n.z@)) + (c * c) * (n.z@ * n.z@)),
        ;
        lemma_perp_length(u2, n2, dn, c, rho, perp2, dx + dy + dz);
        let off = perp2 - 0x1_0000_0000_0000_0000 + c * c;
        assert(0 <= c * c <= 0x1_0000_0000_0000_0000) by (nonlinear_arith)
            requires
                0 <= c <= 0x1_0000_0000,
        ;
        assert(perp2 >= 0) by {
            perp.lemma_length_squared_sign();
        }
        let f = lemma_quotient_error(perp2);
        let len2 = quotient(perp2, ONE_RAW as int);
        assert(0 <= len2 <= ONE_RAW + 0x1d) by (nonlinear_arith)
            requires
                f == perp2 - ONE_RAW * len2,
                0 <= f < ONE_RAW,
                0 <= perp2 <= 0x1_0000_0000_0000_0000 + 0x1c_0000_0003,
                ONE_RAW == 0x1_0000_0000,
        ;
        assert(perp.spec_length_squared()@ == len2);
        let rest = one.minus(perp.spec_length_squared());
        assert(rest@ == ONE_RAW - len2);
        let gap = rest.magnitude();
        let w = gap@ * ONE_RAW;
        let sv = ONE_RAW * (ONE_RAW - len2);
        assert(sv == c * c - off + f) by (nonlinear_arith)
            requires
                sv == ONE_RAW * (ONE_RAW - len2),
                f == perp2 - ONE_RAW * len2,
                off == perp2 - 0x1_0000_0000_0000_0000 + c * c,
                ONE_RAW == 0x1_0000_0000,
        ;
        assert(w == sv || w == -sv) by (nonlinear_arith)
            requires
                w == gap@ * ONE_RAW,
                sv == ONE_RAW * (ONE_RAW - len2),
                gap@ == ONE_RAW - len2 || gap@ == -(ONE_RAW - len2),
        ;
        assert(w >= 0) by (nonlinear_arith)
            requires
                w == gap@ * ONE_RAW,
                gap@ >= 0,
                ONE_RAW > 0,
        ;
        assert(-0x40_0000_0000 < w - c * c < 0x40_0000_0000);
        crate::fixed::lemma_floor_sqrt_exists(w);
        let s = floor_sqrt(w);
        lemma_close_roots(c, s, w);
        let root = gap.root();
        assert(root@ == s);
        one.lemma_times_negated(root);
        root.lemma_times_one();
        let back = Fixed::whole(-1).times(root);
        assert(one.negated() == Fixed::whole(-1));
        assert(back@ == -s);
        lemma_close_products(n.x@, c, s);
        lemma_close_products(n.y@, c, s);
        lemma_close_products(n.z@, c, s);
        lemma_back_component(n.x@, s);
        lemma_back_component(n.y@, s);
        lemma_back_component(n.z@, s);
    }
}

impl Dielectric {
    /// Glass of index one does not bend what it lets through, up to
    /// rounding: where a ray that is not still meets the front or the back
    /// of a surface against a unit normal, and the draw lets it through,
    /// every component of the scattered direction lies within `2^19 + 1`
    /// raw units of the component of the unit direction of the ray; and
    /// where the draw reflects it, the scattered direction is the mirror
    /// image of the unit direction.
    pub proof fn lemma_unit_index_scatter(self, ray: Ray, rec: HitRecord, draw: Fixed)
        requires
            self.ir() == Fixed::whole(1),
            ray.dir.wf(),
            ray.dir != Vec3::origin(),
            rec.normal.wf(),
            rec.normal.within_unit(),
            -8 * ONE_RAW <= rec.normal.raw_dot(rec.normal) - ONE_RAW * ONE_RAW <= 8 * ONE_RAW,
            ray.dir.spec_unit_vector().negated().raw_dot(rec.normal) >= 0,
        ensures
            ({
                let uv = ray.dir.spec_unit_vector();
                let out = self.scatter_drawn(ray, rec, draw);
                &&& out.0 matches Some(s)
                &&& if Dielectric::reflects(uv, rec.normal, Fixed::whole(1), draw) {
                    s.dir == mirrored(uv, rec.normal)
                } else {
                    &&& -0x8_0001 <= s.dir.x@ - uv.x@ <= 0x8_0001
                    &&& -0x8_0001 <= s.dir.y@ - uv.y@ <= 0x8_0001
                    &&& -0x8_0001 <= s.dir.z@ - uv.z@ <= 0x8_0001
                }
            }),
    {
        self.lemma_unit_index_ratio(rec.front_face);
        ray.dir.lemma_unit_vector_length();
        let uv = ray.dir.spec_unit_vector();
        Dielectric::lemma_unit_index_unbent(uv, rec.normal);
    }
}

/// The product with the opposite of a root is the opposite of the product,
/// and stays well below the end of the range.
proof fn lemma_back_component(n: int, s: int)
    requires
        -ONE_RAW <= n <= ONE_RAW,
        0 <= s <= 0x2_0000_0000,
    ensures
        quotient(n * (-s), ONE_RAW as int) == -quotient(n * s, ONE_RAW as int),
        -0x2_0000_0000 <= quotient(n * s, ONE_RAW as int) <= 0x2_0000_0000,
{
    assert(n * (-s) == -(n * s)) by (nonlinear_arith);
    crate::fixed::lemma_quotient_negated(n * s, ONE_RAW as int);
    let e = lemma_quotient_error(n * s);
    assert(-0x2_0000_0000 * ONE_RAW <= n * s <= 0x2_0000_0000 * ONE_RAW) by (nonlinear_arith)
        requires
            -ONE_RAW <= n <= ONE_RAW,
            0 <= s <= 0x2_0000_0000,
            ONE_RAW > 0,
    ;
    assert(-0x2_0000_0000 <= quotient(n * s, ONE_RAW as int) <= 0x2_0000_0000)
        by (nonlinear_arith)
        requires
            e == n * s - ONE_RAW * quotient(n * s, ONE_RAW as int),
            -ONE_RAW < e < ONE_RAW,
            -0x2_0000_0000 * ONE_RAW <= n * s <= 0x2_0000_0000 * ONE_RAW,
            ONE_RAW == 0x1_0000_0000,
    ;
}

} // verus!
