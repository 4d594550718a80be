//! Hit records and the intersection protocol.
use crate::fixed::Fixed;
use crate::material::Material;
use crate::ray::Ray;
use crate::sphere::Sphere;
use crate::vec3::Vec3;
use core::ops::Neg;
use vstd::prelude::*;

verus! {

/// What an intersection query found: where the ray met the surface, the
/// surface normal turned against the ray, the ray parameter, whether the
/// ray came from outside, and the material of what was struck.
#[derive(Clone, Copy, PartialEq, Eq, Structural, Debug)]
pub struct HitRecord {
    pub p: Vec3,
    pub normal: Vec3,
    pub t: Fixed,
    pub front_face: bool,
    pub material: Material,
}

impl HitRecord {
    /// Whether a ray meets a surface with the given outward normal from
    /// outside: the direction and the normal point against each other, by
    /// the sign of their exact dot product.
    pub open spec fn faces_front(r: Ray, outward_normal: Vec3) -> bool {
        r.dir.raw_dot(outward_normal) < 0
    }

    /// The normal turned against the ray, and whether the ray came from
    /// outside.
    pub open spec fn face_normal(r: Ray, outward_normal: Vec3) -> (Vec3, bool) {
        if HitRecord::faces_front(r, outward_normal) {
            (outward_normal, true)
        } else {
            (outward_normal.negated(), false)
        }
    }

    /// The record with the given fields.
    pub fn new(p: Vec3, normal: Vec3, t: Fixed, front_face: bool, material: Material) -> (r:
        HitRecord)
        ensures
            r == (HitRecord { p, normal, t, front_face, material }),
    {
        HitRecord { p, normal, t, front_face, material }
    }

    /// Turns `outward_normal` against the ray. The ray comes from outside
    /// exactly if its direction and the outward normal have a negative dot
    /// product, and the normal handed back never points along the ray.
    pub fn set_face_normal(r: &Ray, outward_normal: Vec3) -> (res: (Vec3, bool))
        ensures
            res == HitRecord::face_normal(*r, outward_normal),
            res.1 == (r.dir.raw_dot(outward_normal) < 0),
            r.dir.raw_dot(res.0) <= 0,
            r.dir.spec_dot(res.0)@ <= 0,
    {
        let front_face = r.dir.dot_is_negative(outward_normal);
        let normal = if front_face {
            outward_normal
        } else {
            outward_normal.neg()
        };
        proof {
            use_type_invariant(&r.dir.x);
            use_type_invariant(&r.dir.y);
            use_type_invariant(&r.dir.z);
            use_type_invariant(&outward_normal.x);
            use_type_invariant(&outward_normal.y);
            use_type_invariant(&outward_normal.z);
            HitRecord::lemma_face_normal_opposes(*r, outward_normal);
        }
        (normal, front_face)
    }

    /// The normal that `face_normal` gives never points along the ray, and
    /// the ray comes from outside exactly if the dot product of its
    /// direction and the outward normal is negative.
    pub proof fn lemma_face_normal_opposes(r: Ray, outward_normal: Vec3)
        requires
            r.dir.wf(),
            outward_normal.wf(),
        ensures
            HitRecord::face_normal(r, outward_normal).1 <==> r.dir.raw_dot(outward_normal) < 0,
            r.dir.raw_dot(HitRecord::face_normal(r, outward_normal).0) <= 0,
            r.dir.spec_dot(HitRecord::face_normal(r, outward_normal).0)@ <= 0,
    {
        r.dir.lemma_dot_negated(outward_normal);
        r.dir.lemma_dot_sign(HitRecord::face_normal(r, outward_normal).0);
    }
}

/// The hit that a scan of `world` in order keeps: each sphere is asked for
/// a hit no farther than the closest found before it.
pub open spec fn nearest_of(world: Seq<Sphere>, r: Ray, t_min: Fixed, t_max: Fixed) -> Option<
    HitRecord,
>
    decreases world.len(),
{
    if world.len() == 0 {
        None
    } else {
        let before = nearest_of(world.drop_last(), r, t_min, t_max);
        let closest_so_far = match before {
            Some(h) => h.t,
            None => t_max,
        };
        match world.last().nearest_hit(r, t_min, closest_so_far) {
            Some(h) => Some(h),
            None => before,
        }
    }
}

/// Whether `h` is the hit of the sphere at `i`, no other sphere of `world`
/// is hit nearer, and every later one is hit farther.
pub open spec fn is_nearest_at(
    world: Seq<Sphere>,
    r: Ray,
    t_min: Fixed,
    t_max: Fixed,
    i: int,
    h: HitRecord,
) -> bool {
    &&& 0 <= i < world.len()
    &&& world[i].nearest_hit(r, t_min, t_max) == Some(h)
    &&& forall|j: int|
        0 <= j < world.len() ==> ((#[trigger] world[j].nearest_hit(r, t_min, t_max)) matches Some(
            g,
        ) ==> h.t@ <= g.t@)
    &&& forall|j: int|
        i < j < world.len() ==> ((#[trigger] world[j].nearest_hit(r, t_min, t_max)) matches Some(
            g,
        ) ==> h.t@ < g.t@)
}

/// Whether `res` is the nearest hit of `r` among the spheres of `world` at
/// a parameter in `[t_min, t_max]`: none if no sphere is hit, and else the
/// hit with the least parameter, of the last sphere that has it.
pub open spec fn is_nearest(
    world: Seq<Sphere>,
    r: Ray,
    t_min: Fixed,
    t_max: Fixed,
    res: Option<HitRecord>,
) -> bool {
    match res {
        None => forall|j: int|
            0 <= j < world.len() ==> (#[trigger] world[j].nearest_hit(r, t_min, t_max)) is None,
        Some(h) => exists|i: int| is_nearest_at(world, r, t_min, t_max, i, h),
    }
}

/// The scan keeps the nearest hit.
pub proof fn lemma_scan_keeps_nearest(world: Seq<Sphere>, r: Ray, t_min: Fixed, t_max: Fixed)
    ensures
        is_nearest(world, r, t_min, t_max, nearest_of(world, r, t_min, t_max)),
    decreases world.len(),
{
    if world.len() > 0 {
        let init = world.drop_last();
        let last = world.last();
        let n = init.len() as int;
        lemma_scan_keeps_nearest(init, r, t_min, t_max);
        let before = nearest_of(init, r, t_min, t_max);
        let closest_so_far = match before {
            Some(h) => h.t,
            None => t_max,
        };
        assert forall|j: int| 0 <= j < n implies init[j] == world[j] by {}
        if let Some(h) = before {
            let i = choose|i: int| is_nearest_at(init, r, t_min, t_max, i, h);
            assert(is_nearest_at(init, r, t_min, t_max, i, h));
            init[i].lemma_hit_is_nearest_root(r, t_min, t_max);
            last.lemma_hit_restricts(r, t_min, t_max, closest_so_far);
            match last.nearest_hit(r, t_min, closest_so_far) {
                Some(g) => {
                    assert forall|j: int| 0 <= j < world.len() implies ((
                    #[trigger] world[j].nearest_hit(r, t_min, t_max)) matches Some(f) ==> g.t@
                        <= f.t@) by {
                        if j < n {
                            assert(init[j].nearest_hit(r, t_min, t_max) == world[j].nearest_hit(
                                r,
                                t_min,
                                t_max,
                            ));
                        }
                    }
                    assert(is_nearest_at(world, r, t_min, t_max, n, g));
                },
                None => {
                    assert forall|j: int| 0 <= j < world.len() implies ((
                    #[trigger] world[j].nearest_hit(r, t_min, t_max)) matches Some(f) ==> h.t@
                        <= f.t@) by {
                        if j < n {
                            assert(init[j].nearest_hit(r, t_min, t_max) == world[j].nearest_hit(
                                r,
                                t_min,
                                t_max,
                            ));
                        }
                    }
                    assert forall|j: int| i < j < world.len() implies ((
                    #[trigger] world[j].nearest_hit(r, t_min, t_max)) matches Some(f) ==> h.t@
                        < f.t@) by {
                        if j < n {
                            assert(init[j].nearest_hit(r, t_min, t_max) == world[j].nearest_hit(
                                r,
                                t_min,
                                t_max,
                            ));
                        }
                    }
                    assert(is_nearest_at(world, r, t_min, t_max, i, h));
                },
            }
        } else {
            match last.nearest_hit(r, t_min, t_max) {
                Some(g) => {
                    assert forall|j: int| 0 <= j < world.len() implies ((
                    #[trigger] world[j].nearest_hit(r, t_min, t_max)) matches Some(f) ==> g.t@
                        <= f.t@) by {
                        if j < n {
                            assert(init[j].nearest_hit(r, t_min, t_max) is None);
                        }
                    }
                    assert(is_nearest_at(world, r, t_min, t_max, n, g));
                },
                None => {
                    assert forall|j: int| 0 <= j < world.len() implies (
                    #[trigger] world[j].nearest_hit(r, t_min, t_max)) is None by {
                        if j < n {
                            assert(init[j].nearest_hit(r, t_min, t_max) is None);
                        }
                    }
                },
            }
        }
    }
}

/// The nearest hit is the hit of one of the spheres: it has that sphere's
/// material, and a normal that is well formed.
pub proof fn lemma_nearest_is_of_world(world: Seq<Sphere>, r: Ray, t_min: Fixed, t_max: Fixed)
    ensures
        nearest_of(world, r, t_min, t_max) matches Some(h) ==> h.normal.wf() && exists|i: int|
            0 <= i < world.len() && h.material == (#[trigger] world[i]).mat_ptr,
{
    lemma_scan_keeps_nearest(world, r, t_min, t_max);
    if let Some(h) = nearest_of(world, r, t_min, t_max) {
        let i = choose|i: int| is_nearest_at(world, r, t_min, t_max, i, h);
        world[i].lemma_hit_is_nearest_root(r, t_min, t_max);
        world[i].lemma_record_fields(r, h.t);
        assert(h.material == world[i].mat_ptr);
    }
}

/// At most one result is the nearest hit.
pub proof fn lemma_nearest_unique(
    world: Seq<Sphere>,
    r: Ray,
    t_min: Fixed,
    t_max: Fixed,
    a: Option<HitRecord>,
    b: Option<HitRecord>,
)
    requires
        is_nearest(world, r, t_min, t_max, a),
        is_nearest(world, r, t_min, t_max, b),
    ensures
        a == b,
{
    match (a, b) {
        (Some(g), Some(h)) => {
            let i = choose|i: int| is_nearest_at(world, r, t_min, t_max, i, g);
            let k = choose|k: int| is_nearest_at(world, r, t_min, t_max, k, h);
            assert(world[i].nearest_hit(r, t_min, t_max) == Some(g));
            assert(world[k].nearest_hit(r, t_min, t_max) == Some(h));
        },
        (Some(g), None) => {
            let i = choose|i: int| is_nearest_at(world, r, t_min, t_max, i, g);
            assert(world[i].nearest_hit(r, t_min, t_max) == Some(g));
        },
        (None, Some(h)) => {
            let k = choose|k: int| is_nearest_at(world, r, t_min, t_max, k, h);
            assert(world[k].nearest_hit(r, t_min, t_max) == Some(h));
        },
        (None, None) => {},
    }
}

/// A scan of candidates finds a hit exactly if a scan of the whole world
/// does, and then at the same parameter, provided that
/// the candidates are spheres of the world and that every sphere of the
/// world that the ray hits is among them.
pub proof fn lemma_candidates_suffice(
    world: Seq<Sphere>,
    candidates: Seq<Sphere>,
    r: Ray,
    t_min: Fixed,
    t_max: Fixed,
)
    requires
        forall|k: int| 0 <= k < candidates.len() ==> world.contains(#[trigger] candidates[k]),
        forall|i: int|
            0 <= i < world.len() && (#[trigger] world[i].nearest_hit(r, t_min, t_max)) is Some
                ==> candidates.contains(world[i]),
    ensures
        nearest_of(candidates, r, t_min, t_max) is Some <==> nearest_of(world, r, t_min, t_max)
            is Some,
        nearest_of(candidates, r, t_min, t_max) matches Some(g) ==> (nearest_of(
            world,
            r,
            t_min,
            t_max,
        ) matches Some(h) && g.t == h.t),
{
    lemma_scan_keeps_nearest(world, r, t_min, t_max);
    lemma_scan_keeps_nearest(candidates, r, t_min, t_max);
    let found = nearest_of(world, r, t_min, t_max);
    let kept = nearest_of(candidates, r, t_min, t_max);
    if let Some(h) = found {
        let i = choose|i: int| is_nearest_at(world, r, t_min, t_max, i, h);
        assert(world[i].nearest_hit(r, t_min, t_max) == Some(h));
        assert(candidates.contains(world[i]));
        let k = choose|k: int| 0 <= k < candidates.len() && candidates[k] == world[i];
        assert(candidates[k].nearest_hit(r, t_min, t_max) == Some(h));
        world[i].lemma_hit_is_nearest_root(r, t_min, t_max);
        world[i].lemma_record_fields(r, h.t);
    }
    if let Some(g) = kept {
        let k = choose|k: int| is_nearest_at(candidates, r, t_min, t_max, k, g);
        assert(candidates[k].nearest_hit(r, t_min, t_max) == Some(g));
        assert(world.contains(candidates[k]));
        let i = choose|i: int| 0 <= i < world.len() && world[i] == candidates[k];
        assert(world[i].nearest_hit(r, t_min, t_max) == Some(g));
        candidates[k].lemma_hit_is_nearest_root(r, t_min, t_max);
        candidates[k].lemma_record_fields(r, g.t);
    }
}

/// A scan of candidates finds the very hit that a scan of the whole world
/// finds, provided that the candidates are spheres of the world, that
/// every sphere of the world that the ray hits is among them, and that no
/// two spheres of the world are hit at one parameter with different
/// records.
pub proof fn lemma_candidates_same_hit(
    world: Seq<Sphere>,
    candidates: Seq<Sphere>,
    r: Ray,
    t_min: Fixed,
    t_max: Fixed,
)
    requires
        forall|k: int| 0 <= k < candidates.len() ==> world.contains(#[trigger] candidates[k]),
        forall|i: int|
            0 <= i < world.len() && (#[trigger] world[i].nearest_hit(r, t_min, t_max)) is Some
                ==> candidates.contains(world[i]),
        forall|i: int, j: int|
            0 <= i < world.len() && 0 <= j < world.len() ==> match (
                #[trigger] world[i].nearest_hit(r, t_min, t_max),
                #[trigger] world[j].nearest_hit(r, t_min, t_max),
            ) {
                (Some(g), Some(h)) => g.t == h.t ==> g == h,
                _ => true,
            },
    ensures
        nearest_of(candidates, r, t_min, t_max) == nearest_of(world, r, t_min, t_max),
{
    lemma_candidates_suffice(world, candidates, r, t_min, t_max);
    lemma_scan_keeps_nearest(world, r, t_min, t_max);
    lemma_scan_keeps_nearest(candidates, r, t_min, t_max);
    if let Some(h) = nearest_of(world, r, t_min, t_max) {
        let g = nearest_of(candidates, r, t_min, t_max)->0;
        let i = choose|i: int| is_nearest_at(world, r, t_min, t_max, i, h);
        let k = choose|k: int| is_nearest_at(candidates, r, t_min, t_max, k, g);
        assert(candidates[k].nearest_hit(r, t_min, t_max) == Some(g));
        assert(world.contains(candidates[k]));
        let j = choose|j: int| 0 <= j < world.len() && world[j] == candidates[k];
        assert(world[j].nearest_hit(r, t_min, t_max) == Some(g));
        assert(world[i].nearest_hit(r, t_min, t_max) == Some(h));
    }
}

/// The nearest hit of `r` among the spheres of `world` at a parameter in
/// `[t_min, t_max]`.
pub fn hit_world(world: &Vec<Sphere>, r: &Ray, t_min: Fixed, t_max: Fixed) -> (res: Option<
    HitRecord,
>)
    ensures
        res == nearest_of(world@, *r, t_min, t_max),
        is_nearest(world@, *r, t_min, t_max, res),
        res matches Some(h) ==> t_min@ <= h.t@ <= t_max@ && r.dir.spec_dot(h.normal)@ <= 0,
{
    let mut closest_so_far = t_max;
    let mut hit_record: Option<HitRecord> = None;
    let mut i: usize = 0;
    while i < world.len()
        invariant
            i <= world.len(),
            hit_record == nearest_of(world@.take(i as int), *r, t_min, t_max),
            closest_so_far == (match hit_record {
                Some(h) => h.t,
                None => t_max,
            }),
            hit_record matches Some(h) ==> t_min@ <= h.t@ <= t_max@ && r.dir.spec_dot(h.normal)@
                <= 0,
        decreases world.len() - i,
    {
        proof {
            assert(world@.take(i + 1).drop_last() =~= world@.take(i as int));
            world@[i as int].lemma_hit_restricts(*r, t_min, t_max, closest_so_far);
        }
        if let Some(hit) = world[i].hit(r, t_min, closest_so_far) {
            closest_so_far = hit.t;
            hit_record = Some(hit);
        }
        i = i + 1;
    }
    proof {
        assert(world@.take(i as int) =~= world@);
        lemma_scan_keeps_nearest(world@, *r, t_min, t_max);
    }
    hit_record
}

/// What a ray can be intersected with.
pub trait Hittable {
    /// The nearest hit of `r` at a parameter in `[t_min, t_max]`, if any.
    spec fn spec_hit(&self, r: Ray, t_min: Fixed, t_max: Fixed) -> Option<HitRecord>;

    /// Finds the nearest hit of `r` at a parameter in `[t_min, t_max]`.
    fn hit(&self, r: &Ray, t_min: Fixed, t_max: Fixed) -> (res: Option<HitRecord>)
        ensures
            res == self.spec_hit(*r, t_min, t_max),
            res matches Some(h) ==> t_min@ <= h.t@ <= t_max@ && r.dir.spec_dot(h.normal)@ <= 0,
    ;
}

} // verus!
