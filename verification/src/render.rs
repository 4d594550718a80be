//! The radiance estimator and the loop over the pixels.
use crate::camera::Camera;
use crate::colours::{tone_mapped, write_colours};
use crate::fixed::{Fixed, ONE_RAW};
use crate::hittable::{hit_world, nearest_of, HitRecord};
use crate::material::{Draw, Properties};
use crate::random::{thread_generator, uniform_unit};
use crate::ray::Ray;
use crate::sphere::Sphere;
use crate::vec3::Vec3;
use core::ops::AddAssign;
use vstd::prelude::*;

verus! {

/// The least parameter at which a hit counts: `0.001`, which keeps a
/// scattered ray from hitting the surface it leaves.
pub open spec fn shadow_bias() -> Fixed {
    Fixed::ratio(1, 1000)
}

/// The greatest parameter at which a hit counts: the largest number, for
/// no limit.
pub open spec fn horizon() -> Fixed {
    Fixed::of(crate::fixed::MAX_RAW as int)
}

/// The colour of the sky along `ray`: white at the bottom and sky blue at
/// the top, blended by the height of the unit direction.
pub open spec fn sky(ray: Ray) -> Vec3 {
    let unit_direction = ray.dir.spec_unit_vector();
    let t = Fixed::ratio(1, 2).times(unit_direction.y.plus(Fixed::whole(1)));
    let white = Vec3 { x: Fixed::whole(1), y: Fixed::whole(1), z: Fixed::whole(1) };
    let blue = Vec3 { x: Fixed::ratio(1, 2), y: Fixed::ratio(7, 10), z: Fixed::whole(1) };
    white.scaled(Fixed::whole(1).minus(t)).plus(blue.scaled(t))
}

/// Whether `colour` is an estimate that `depth` bounces may give for
/// `ray`: black without bounces left; the sky where the ray hits nothing;
/// and where it hits, black if the material gives no ray, and else what the
/// material keeps of an estimate for the scattered ray with one bounce
/// less. Which scattered ray comes is left to the material's draws.
pub open spec fn colour_outcome(ray: Ray, world: Seq<Sphere>, depth: int, colour: Vec3) -> bool
    decreases depth,
{
    if depth <= 0 {
        colour == Vec3::origin()
    } else {
        match nearest_of(world, ray, shadow_bias(), horizon()) {
            Some(rec) => {
                ||| exists|attenuation: Vec3| #[trigger]
                    rec.material.scatter_outcome(ray, rec, (None, attenuation)) && colour
                        == Vec3::origin()
                ||| exists|scattered: Ray, attenuation: Vec3, incoming: Vec3|
                    #![trigger
                        rec.material.scatter_outcome(ray, rec, (Some(scattered), attenuation)),
                        attenuation.times(incoming)
                    ]
                    rec.material.scatter_outcome(ray, rec, (Some(scattered), attenuation))
                        && colour_outcome(scattered, world, depth - 1, incoming) && colour
                        == attenuation.times(incoming)
            },
            None => colour == sky(ray),
        }
    }
}

/// Whether every sphere of `world` keeps at most what it gets of every
/// colour.
pub open spec fn keeps_energy(world: Seq<Sphere>) -> bool {
    forall|i: int| 0 <= i < world.len() ==> (#[trigger] world[i]).mat_ptr.keeps_energy()
}

/// Every component of the colour of the sky lies in `[0, 1]`, whatever the
/// length of the direction.
pub proof fn lemma_sky_in_unit_cube(ray: Ray)
    requires
        ray.dir.wf(),
    ensures
        sky(ray).in_unit_cube(),
{
    let one = Fixed::whole(1);
    let half = Fixed::ratio(1, 2);
    let unit_direction = ray.dir.spec_unit_vector();
    ray.dir.lemma_unit_vector_within();
    let up = unit_direction.y.plus(one);
    assert(0 <= up@ <= 2 * ONE_RAW);
    let t = half.times(up);
    let p = half@ * up@;
    assert(half@ == 0x8000_0000);
    assert(0 <= p <= ONE_RAW * ONE_RAW) by (nonlinear_arith)
        requires
            p == half@ * up@,
            half@ == 0x8000_0000,
            0 <= up@ <= 2 * ONE_RAW,
            ONE_RAW == 0x1_0000_0000,
    ;
    vstd::arithmetic::div_mod::lemma_div_is_ordered(p, ONE_RAW * ONE_RAW, ONE_RAW as int);
    vstd::arithmetic::div_mod::lemma_div_multiples_vanish(ONE_RAW as int, ONE_RAW as int);
    vstd::arithmetic::div_mod::lemma_div_pos_is_pos(p, ONE_RAW as int);
    assert(0 <= t@ <= ONE_RAW);
    let rest = one.minus(t);
    rest.lemma_times_one();
    half.lemma_times_unit(t);
    Fixed::ratio(7, 10).lemma_times_unit(t);
    one.lemma_times_unit(t);
}

/// Where no material adds light, no estimate is brighter than the sky:
/// every component of every estimate lies in `[0, 1]`.
pub proof fn lemma_estimate_in_unit_cube(ray: Ray, world: Seq<Sphere>, depth: int, colour: Vec3)
    requires
        ray.dir.wf(),
        keeps_energy(world),
        colour_outcome(ray, world, depth, colour),
    ensures
        colour.in_unit_cube(),
    decreases depth,
{
    if depth > 0 {
        match nearest_of(world, ray, shadow_bias(), horizon()) {
            Some(rec) => {
                crate::hittable::lemma_nearest_is_of_world(world, ray, shadow_bias(), horizon());
                if exists|scattered: Ray, attenuation: Vec3, incoming: Vec3|
                    #![trigger
                        rec.material.scatter_outcome(ray, rec, (Some(scattered), attenuation)),
                        attenuation.times(incoming)
                    ]
                    rec.material.scatter_outcome(ray, rec, (Some(scattered), attenuation))
                        && colour_outcome(scattered, world, depth - 1, incoming) && colour
                        == attenuation.times(incoming) {
                    let (scattered, attenuation, incoming) = choose|
                        scattered: Ray,
                        attenuation: Vec3,
                        incoming: Vec3,
                    |
                        #![trigger
                            rec.material.scatter_outcome(ray, rec, (Some(scattered), attenuation)),
                            attenuation.times(incoming)
                        ]
                        rec.material.scatter_outcome(ray, rec, (Some(scattered), attenuation))
                            && colour_outcome(scattered, world, depth - 1, incoming) && colour
                            == attenuation.times(incoming);
                    rec.material.lemma_scatter_keeps_energy(
                        ray,
                        rec,
                        (Some(scattered), attenuation),
                    );
                    lemma_estimate_in_unit_cube(scattered, world, depth - 1, incoming);
                    attenuation.x.lemma_times_unit(incoming.x);
                    attenuation.y.lemma_times_unit(incoming.y);
                    attenuation.z.lemma_times_unit(incoming.z);
                }
            },
            None => {
                lemma_sky_in_unit_cube(ray);
            },
        }
    }
}

/// With one bounce to go, a ray that hits a sphere gives black: nothing
/// comes back along the ray that the sphere scatters.
pub proof fn lemma_last_bounce_is_black(ray: Ray, world: Seq<Sphere>, colour: Vec3)
    requires
        colour_outcome(ray, world, 1, colour),
        nearest_of(world, ray, shadow_bias(), horizon()) is Some,
    ensures
        colour == Vec3::origin(),
{
    let rec = nearest_of(world, ray, shadow_bias(), horizon())->0;
    if exists|scattered: Ray, attenuation: Vec3, incoming: Vec3|
        #![trigger
            rec.material.scatter_outcome(ray, rec, (Some(scattered), attenuation)),
            attenuation.times(incoming)
        ]
        rec.material.scatter_outcome(ray, rec, (Some(scattered), attenuation)) && colour_outcome(
            scattered,
            world,
            0,
            incoming,
        ) && colour == attenuation.times(incoming) {
        let (scattered, attenuation, incoming) = choose|
            scattered: Ray,
            attenuation: Vec3,
            incoming: Vec3,
        |
            #![trigger
                rec.material.scatter_outcome(ray, rec, (Some(scattered), attenuation)),
                attenuation.times(incoming)
            ]
            rec.material.scatter_outcome(ray, rec, (Some(scattered), attenuation))
                && colour_outcome(scattered, world, 0, incoming) && colour == attenuation.times(
                incoming,
            );
        attenuation.x.lemma_times_zero();
        attenuation.y.lemma_times_zero();
        attenuation.z.lemma_times_zero();
    }
}

/// The colour of the sky along `ray`.
pub fn background(ray: &Ray) -> (colour: Vec3)
    ensures
        colour == sky(*ray),
{
    let unit_direction = ray.dir.unit_vector();
    let t = Fixed::from_ratio(1, 2) * (unit_direction.y + Fixed::one());
    (Fixed::one() - t) * Vec3::new(Fixed::one(), Fixed::one(), Fixed::one()) + t * Vec3::new(
        Fixed::from_ratio(1, 2),
        Fixed::from_ratio(7, 10),
        Fixed::one(),
    )
}

/// What one bounce makes of a ray: the colour that ends the path, or the
/// ray that goes on with the colour by which what comes back along it is
/// multiplied.
#[derive(Clone, Copy, PartialEq, Eq, Structural, Debug)]
pub enum Bounce {
    Finished(Vec3),
    Scattered(Ray, Vec3),
}

/// Whether `step` is what a bounce of `ray` in `world` may give: the sky
/// where the ray hits nothing; where it hits, black if the material gives
/// no ray, and else a scattered ray with its attenuation.
pub open spec fn bounce_outcome(ray: Ray, world: Seq<Sphere>, step: Bounce) -> bool {
    match nearest_of(world, ray, shadow_bias(), horizon()) {
        None => step == Bounce::Finished(sky(ray)),
        Some(rec) => match step {
            Bounce::Finished(colour) => colour == Vec3::origin() && exists|attenuation: Vec3|
                #[trigger] rec.material.scatter_outcome(ray, rec, (None, attenuation)),
            Bounce::Scattered(scattered, attenuation) => rec.material.scatter_outcome(
                ray,
                rec,
                (Some(scattered), attenuation),
            ),
        },
    }
}

/// A bounce ends the path exactly where the ray hits nothing: every
/// material scatters.
pub proof fn lemma_bounce_ends_in_the_sky(ray: Ray, world: Seq<Sphere>, step: Bounce)
    requires
        bounce_outcome(ray, world, step),
    ensures
        step is Finished <==> nearest_of(world, ray, shadow_bias(), horizon()) is None,
        step matches Bounce::Finished(colour) ==> colour == sky(ray),
{
    if let Some(rec) = nearest_of(world, ray, shadow_bias(), horizon()) {
        if let Bounce::Finished(colour) = step {
            let attenuation = choose|attenuation: Vec3| #[trigger]
                rec.material.scatter_outcome(ray, rec, (None, attenuation));
            rec.material.lemma_always_scatters(ray, rec, (None, attenuation));
        }
    }
}

/// Follows `ray` to the nearest sphere of `world` and lets its material
/// scatter it.
pub fn bounce(ray: &Ray, world: &Vec<Sphere>) -> (step: Bounce)
    ensures
        bounce_outcome(*ray, world@, step),
{
    let rec: Option<HitRecord> = hit_world(
        world,
        ray,
        Fixed::from_ratio(1, 1000),
        Fixed::max_value(),
    );
    match rec {
        Some(rec) => {
            let (scattered, attenuation) = rec.material.scatter(ray, rec);
            match scattered {
                Some(scattered) => Bounce::Scattered(scattered, attenuation),
                None => {
                    proof {
                        assert(rec.material.scatter_outcome(*ray, rec, (None, attenuation)));
                    }
                    Bounce::Finished(Vec3::zero())
                },
            }
        },
        None => Bounce::Finished(background(ray)),
    }
}

/// An estimate of the light that comes back along `ray` from the spheres
/// of `world`, following at most `depth` bounces. Without a bounce left the
/// estimate is black, whatever the scene; and where no material adds
/// light, every component of the estimate lies in `[0, 1]`.
pub fn ray_colour(ray: &Ray, world: &Vec<Sphere>, depth: i32) -> (colour: Vec3)
    ensures
        colour_outcome(*ray, world@, depth as int, colour),
        depth <= 0 ==> colour == Vec3::origin(),
        depth > 0 && nearest_of(world@, *ray, shadow_bias(), horizon()) is None ==> colour == sky(
            *ray,
        ),
        keeps_energy(world@) ==> colour.in_unit_cube(),
    decreases depth,
{
    if depth <= 0 {
        return Vec3::zero();
    }
    let colour = match bounce(ray, world) {
        Bounce::Scattered(scattered, attenuation) => {
            let incoming = ray_colour(&scattered, world, depth - 1);
            proof {
                assert(colour_outcome(scattered, world@, depth - 1, incoming));
            }
            attenuation * incoming
        },
        Bounce::Finished(colour) => colour,
    };
    proof {
        use_type_invariant(&ray.dir.x);
        use_type_invariant(&ray.dir.y);
        use_type_invariant(&ray.dir.z);
        assert(colour_outcome(*ray, world@, depth as int, colour));
        if keeps_energy(world@) {
            lemma_estimate_in_unit_cube(*ray, world@, depth as int, colour);
        }
    }
    colour
}

/// The estimate for `ray` when the scatterings on the way take their draws
/// from `draws`, the first scattering the first: black without a bounce
/// left, the sky where the ray hits nothing, and where it hits, black if
/// no draw is left, and else what the material keeps of the estimate for
/// the scattered ray with one bounce less and the draws that follow.
pub open spec fn colour_drawn(ray: Ray, world: Seq<Sphere>, depth: int, draws: Seq<Draw>) -> Vec3
    decreases depth,
{
    if depth <= 0 {
        Vec3::origin()
    } else {
        match nearest_of(world, ray, shadow_bias(), horizon()) {
            None => sky(ray),
            Some(rec) => if draws.len() == 0 {
                Vec3::origin()
            } else {
                let out = rec.material.scatter_for(ray, rec, draws[0]);
                match out.0 {
                    Some(scattered) => out.1.times(
                        colour_drawn(scattered, world, depth - 1, draws.skip(1)),
                    ),
                    None => Vec3::origin(),
                }
            },
        }
    }
}

/// With admissible draws, one for each bounce, the estimate for the draws
/// is one of the estimates that [`ray_colour`] may give.
pub proof fn lemma_drawn_is_outcome(ray: Ray, world: Seq<Sphere>, depth: int, draws: Seq<Draw>)
    requires
        draws.len() >= depth,
        forall|i: int| 0 <= i < draws.len() ==> (#[trigger] draws[i]).admissible(),
    ensures
        colour_outcome(ray, world, depth, colour_drawn(ray, world, depth, draws)),
    decreases depth,
{
    if depth > 0 {
        if let Some(rec) = nearest_of(world, ray, shadow_bias(), horizon()) {
            let out = rec.material.scatter_for(ray, rec, draws[0]);
            rec.material.lemma_drawn_is_outcome(ray, rec, draws[0]);
            let scattered = out.0->0;
            let rest = draws.skip(1);
            assert forall|i: int| 0 <= i < rest.len() implies (#[trigger] rest[i]).admissible() by {
                assert(rest[i] == draws[i + 1]);
            }
            lemma_drawn_is_outcome(scattered, world, depth - 1, rest);
            let incoming = colour_drawn(scattered, world, depth - 1, rest);
            assert(rec.material.scatter_outcome(ray, rec, (Some(scattered), out.1)));
            assert(colour_drawn(ray, world, depth, draws) == out.1.times(incoming));
        }
    }
}

/// The estimate for `ray` with the draws of the scatterings given: the
/// same ray, world, depth and draws give the same colour.
pub fn ray_colour_with(ray: &Ray, world: &Vec<Sphere>, depth: i32, draws: &Vec<Draw>) -> (colour:
    Vec3)
    ensures
        colour == colour_drawn(*ray, world@, depth as int, draws@),
{
    assert(draws@.skip(0) =~= draws@);
    follow_with(ray, world, depth, draws, 0)
}

/// The estimate for `ray` with the draws from the one at `next` on.
fn follow_with(ray: &Ray, world: &Vec<Sphere>, depth: i32, draws: &Vec<Draw>, next: usize) -> (colour:
    Vec3)
    requires
        next <= draws.len(),
    ensures
        colour == colour_drawn(*ray, world@, depth as int, draws@.skip(next as int)),
    decreases depth,
{
    if depth <= 0 {
        return Vec3::zero();
    }
    match hit_world(world, ray, Fixed::from_ratio(1, 1000), Fixed::max_value()) {
        None => background(ray),
        Some(rec) => {
            if next >= draws.len() {
                return Vec3::zero();
            }
            proof {
                assert(draws@.skip(next as int)[0] == draws@[next as int]);
                assert(draws@.skip(next as int).skip(1) =~= draws@.skip(next + 1));
            }
            let (scattered, attenuation) = rec.material.scatter_with(ray, rec, draws[next]);
            match scattered {
                Some(scattered) => attenuation * follow_with(
                    &scattered,
                    world,
                    depth - 1,
                    draws,
                    next + 1,
                ),
                None => Vec3::zero(),
            }
        },
    }
}

/// A path that is being followed: the ray that it has come to, what the
/// bounces so far keep of the light that comes back along that ray, and
/// how many bounces are left.
#[derive(Clone, Copy, PartialEq, Eq, Structural, Debug)]
pub struct Path {
    pub ray: Ray,
    pub throughput: Vec3,
    pub bounces_left: i32,
}

/// What a step makes of a path: its colour, or the path one bounce on.
#[derive(Clone, Copy, PartialEq, Eq, Structural, Debug)]
pub enum Step {
    Done(Vec3),
    Continue(Path),
}

/// Whether `step` is what a step of `path` may give when `world` holds
/// the spheres that its ray may hit: black without a bounce left; else,
/// for a bounce that ends the path, what the path keeps of its colour, and
/// for one that scatters, the path along the scattered ray with the
/// attenuation taken in and one bounce less.
pub open spec fn step_outcome(path: Path, world: Seq<Sphere>, step: Step) -> bool {
    if path.bounces_left <= 0 {
        step == Step::Done(Vec3::origin())
    } else {
        exists|b: Bounce| #[trigger]
            bounce_outcome(path.ray, world, b) && step == (match b {
                Bounce::Finished(colour) => Step::Done(path.throughput.times(colour)),
                Bounce::Scattered(scattered, attenuation) => Step::Continue(
                    Path {
                        ray: scattered,
                        throughput: path.throughput.times(attenuation),
                        bounces_left: (path.bounces_left - 1) as i32,
                    },
                ),
            })
    }
}

/// A step among candidates is a step in the whole world, provided that
/// the candidates give the ray of the path the hit that the whole world
/// gives it. So a path may be followed with other candidates at every
/// bounce.
pub proof fn lemma_step_among_candidates(
    path: Path,
    world: Seq<Sphere>,
    candidates: Seq<Sphere>,
    step: Step,
)
    requires
        nearest_of(candidates, path.ray, shadow_bias(), horizon()) == nearest_of(
            world,
            path.ray,
            shadow_bias(),
            horizon(),
        ),
        step_outcome(path, candidates, step),
    ensures
        step_outcome(path, world, step),
{
    if path.bounces_left > 0 {
        let b = choose|b: Bounce| #[trigger]
            bounce_outcome(path.ray, candidates, b) && step == (match b {
                Bounce::Finished(colour) => Step::Done(path.throughput.times(colour)),
                Bounce::Scattered(scattered, attenuation) => Step::Continue(
                    Path {
                        ray: scattered,
                        throughput: path.throughput.times(attenuation),
                        bounces_left: (path.bounces_left - 1) as i32,
                    },
                ),
            });
        assert(bounce_outcome(path.ray, world, b));
    }
}

/// An estimate among candidates is an estimate in the whole world,
/// provided that the candidates give every ray the hit that the whole
/// world gives it.
pub proof fn lemma_estimate_among_candidates(
    ray: Ray,
    world: Seq<Sphere>,
    candidates: Seq<Sphere>,
    depth: int,
    colour: Vec3,
)
    requires
        forall|r: Ray| #[trigger]
            nearest_of(candidates, r, shadow_bias(), horizon()) == nearest_of(
                world,
                r,
                shadow_bias(),
                horizon(),
            ),
        colour_outcome(ray, candidates, depth, colour),
    ensures
        colour_outcome(ray, world, depth, colour),
    decreases depth,
{
    if depth > 0 {
        assert(nearest_of(candidates, ray, shadow_bias(), horizon()) == nearest_of(
            world,
            ray,
            shadow_bias(),
            horizon(),
        ));
        if let Some(rec) = nearest_of(world, ray, shadow_bias(), horizon()) {
            if exists|scattered: Ray, attenuation: Vec3, incoming: Vec3|
                #![trigger
                    rec.material.scatter_outcome(ray, rec, (Some(scattered), attenuation)),
                    attenuation.times(incoming)
                ]
                rec.material.scatter_outcome(ray, rec, (Some(scattered), attenuation))
                    && colour_outcome(scattered, candidates, depth - 1, incoming) && colour
                    == attenuation.times(incoming) {
                let (scattered, attenuation, incoming) = choose|
                    scattered: Ray,
                    attenuation: Vec3,
                    incoming: Vec3,
                |
                    #![trigger
                        rec.material.scatter_outcome(ray, rec, (Some(scattered), attenuation)),
                        attenuation.times(incoming)
                    ]
                    rec.material.scatter_outcome(ray, rec, (Some(scattered), attenuation))
                        && colour_outcome(scattered, candidates, depth - 1, incoming) && colour
                        == attenuation.times(incoming);
                lemma_estimate_among_candidates(scattered, world, candidates, depth - 1, incoming);
            }
        }
    }
}

/// The path that starts along `ray` with `depth` bounces to go and
/// nothing lost yet.
pub fn start_path(ray: Ray, depth: i32) -> (path: Path)
    ensures
        path == (Path {
            ray,
            throughput: Vec3 { x: Fixed::whole(1), y: Fixed::whole(1), z: Fixed::whole(1) },
            bounces_left: depth,
        }),
{
    Path { ray, throughput: Vec3::new(Fixed::one(), Fixed::one(), Fixed::one()), bounces_left: depth }
}

/// Takes `path` one bounce on among `candidates`, the spheres that its
/// ray may hit. A path that continues has one bounce less to go, so
/// following a path ends.
pub fn advance(path: &Path, candidates: &Vec<Sphere>) -> (step: Step)
    ensures
        step_outcome(*path, candidates@, step),
        step matches Step::Continue(next) ==> 0 <= next.bounces_left < path.bounces_left,
{
    if path.bounces_left <= 0 {
        return Step::Done(Vec3::zero());
    }
    let b = bounce(&path.ray, candidates);
    let step = match b {
        Bounce::Finished(colour) => Step::Done(path.throughput * colour),
        Bounce::Scattered(scattered, attenuation) => Step::Continue(
            Path {
                ray: scattered,
                throughput: path.throughput * attenuation,
                bounces_left: path.bounces_left - 1,
            },
        ),
    };
    proof {
        assert(bounce_outcome(path.ray, candidates@, b));
    }
    step
}

/// Whether `colour` is what following `path` to its end in `world` may
/// give.
pub open spec fn path_outcome(path: Path, world: Seq<Sphere>, colour: Vec3) -> bool
    decreases path.bounces_left,
{
    if path.bounces_left <= 0 {
        colour == Vec3::origin()
    } else {
        exists|step: Step| #[trigger]
            step_outcome(path, world, step) && (match step {
                Step::Done(end) => colour == end,
                Step::Continue(next) => next.bounces_left == path.bounces_left - 1
                    && path_outcome(next, world, colour),
            })
    }
}

/// The estimate for `ray` by following one path step by step, with the
/// attenuations multiplied up on the way, for at most `depth` bounces.
///
/// [`ray_colour`] multiplies from the far end of the path back, this
/// function from the near end on. Each product is rounded, so the two may
/// differ by the rounding of one product for each bounce; they agree on a
/// path that is scattered at most once.
pub fn trace(ray: &Ray, world: &Vec<Sphere>, depth: i32) -> (colour: Vec3)
    ensures
        path_outcome(
            Path {
                ray: *ray,
                throughput: Vec3 { x: Fixed::whole(1), y: Fixed::whole(1), z: Fixed::whole(1) },
                bounces_left: depth,
            },
            world@,
            colour,
        ),
        depth <= 0 ==> colour == Vec3::origin(),
{
    let ghost start = Path {
        ray: *ray,
        throughput: Vec3 { x: Fixed::whole(1), y: Fixed::whole(1), z: Fixed::whole(1) },
        bounces_left: depth,
    };
    let mut path = start_path(*ray, depth);
    loop
        invariant
            forall|colour: Vec3|
                path_outcome(path, world@, colour) ==> #[trigger] path_outcome(
                    start,
                    world@,
                    colour,
                ),
            depth <= 0 ==> path.bounces_left <= 0,
            start == (Path {
                ray: *ray,
                throughput: Vec3 { x: Fixed::whole(1), y: Fixed::whole(1), z: Fixed::whole(1) },
                bounces_left: depth,
            }),
        decreases path.bounces_left,
    {
        let step = advance(&path, world);
        match step {
            Step::Done(colour) => {
                proof {
                    assert(step_outcome(path, world@, step));
                    assert(path_outcome(path, world@, colour));
                    assert(path_outcome(start, world@, colour));
                }
                return colour;
            },
            Step::Continue(next) => {
                proof {
                    assert forall|colour: Vec3| path_outcome(next, world@, colour) implies
                        #[trigger] path_outcome(start, world@, colour) by {
                        assert(step_outcome(path, world@, step));
                        assert(path_outcome(path, world@, colour));
                    }
                }
                path = next;
            },
        }
    }
}

/// Where on the image plane, as a share of its extent, the sample of the
/// pixel with the given index lies that is shifted by `jitter`:
/// `(index + jitter) / (extent - 1)`.
pub open spec fn image_coordinate(index: int, jitter: Fixed, extent: int) -> Fixed {
    Fixed::whole(index).plus(jitter).over(Fixed::whole(extent - 1))
}

/// Whether `ray` is a primary ray that a sample of the pixel `(i, j)` may
/// take: one through the pixel, shifted by less than a pixel each way,
/// from some point of the lens.
pub open spec fn primary_outcome(
    cam: Camera,
    i: int,
    j: int,
    image_width: int,
    image_height: int,
    ray: Ray,
) -> bool {
    exists|du: Fixed, dv: Fixed|
        0 <= du@ < ONE_RAW && 0 <= dv@ < ONE_RAW && #[trigger] cam.ray_outcome(
            image_coordinate(i, du, image_width),
            image_coordinate(j, dv, image_height),
            ray,
        )
}

/// Whether `colour` is what one sample of the pixel `(i, j)` may give.
pub open spec fn sample_outcome(
    world: Seq<Sphere>,
    cam: Camera,
    i: int,
    j: int,
    image_width: int,
    image_height: int,
    depth: int,
    colour: Vec3,
) -> bool {
    exists|ray: Ray|
        primary_outcome(cam, i, j, image_width, image_height, ray) && #[trigger] colour_outcome(
            ray,
            world,
            depth,
            colour,
        )
}

/// Whether `sum` is what `samples` samples of the pixel `(i, j)` may add
/// up to.
pub open spec fn sum_outcome(
    world: Seq<Sphere>,
    cam: Camera,
    i: int,
    j: int,
    image_width: int,
    image_height: int,
    depth: int,
    samples: int,
    sum: Vec3,
) -> bool
    decreases samples,
{
    if samples <= 0 {
        sum == Vec3::origin()
    } else {
        exists|before: Vec3, colour: Vec3|
            #![trigger before.plus(colour)]
            sum_outcome(world, cam, i, j, image_width, image_height, depth, samples - 1, before)
                && sample_outcome(world, cam, i, j, image_width, image_height, depth, colour)
                && sum == before.plus(colour)
    }
}

/// Whether `pixel` holds the bytes that the pixel `(i, j)` may get: the
/// tone-mapped sum of its samples.
pub open spec fn pixel_outcome(
    world: Seq<Sphere>,
    cam: Camera,
    i: int,
    j: int,
    image_width: int,
    image_height: int,
    samples: int,
    depth: int,
    pixel: Seq<u8>,
) -> bool {
    exists|sum: Vec3|
        sum_outcome(world, cam, i, j, image_width, image_height, depth, samples, sum) && pixel
            == #[trigger] tone_mapped(sum, samples)
}

/// A primary ray for one sample of the pixel in column `i` and row `j`.
pub fn primary_ray(cam: &Camera, i: u32, j: u32, image_width: u32, image_height: u32) -> (ray: Ray)
    requires
        i < image_width,
        j < image_height,
    ensures
        primary_outcome(*cam, i as int, j as int, image_width as int, image_height as int, ray),
{
    let mut rng = thread_generator();
    let du = uniform_unit(&mut rng);
    let dv = uniform_unit(&mut rng);
    let u = (Fixed::from_u32(i) + du) / Fixed::from_u32(image_width - 1);
    let v = (Fixed::from_u32(j) + dv) / Fixed::from_u32(image_height - 1);
    let ray = cam.get_ray(u, v);
    proof {
        assert(u == image_coordinate(i as int, du, image_width as int));
        assert(v == image_coordinate(j as int, dv, image_height as int));
        assert(cam.ray_outcome(
            image_coordinate(i as int, du, image_width as int),
            image_coordinate(j as int, dv, image_height as int),
            ray,
        ));
    }
    ray
}

/// The bytes of the pixel in column `i` and row `j`: the tone-mapped sum
/// of `samples_per_pixel` estimates along primary rays through the pixel.
pub fn render_pixel(
    world: &Vec<Sphere>,
    cam: &Camera,
    i: u32,
    j: u32,
    image_width: u32,
    image_height: u32,
    samples_per_pixel: i32,
    max_depth: i32,
) -> (pixel: [u8; 3])
    requires
        i < image_width,
        j < image_height,
    ensures
        pixel_outcome(
            world@,
            *cam,
            i as int,
            j as int,
            image_width as int,
            image_height as int,
            samples_per_pixel as int,
            max_depth as int,
            pixel@,
        ),
{
    let mut pixel_color = Vec3::zero();
    let mut k: i32 = 0;
    while k < samples_per_pixel
        invariant
            i < image_width,
            j < image_height,
            0 <= k,
            k <= samples_per_pixel || k == 0,
            sum_outcome(
                world@,
                *cam,
                i as int,
                j as int,
                image_width as int,
                image_height as int,
                max_depth as int,
                k as int,
                pixel_color,
            ),
        decreases samples_per_pixel - k,
    {
        let r = primary_ray(cam, i, j, image_width, image_height);
        let colour = ray_colour(&r, world, max_depth);
        let ghost before = pixel_color;
        pixel_color.add_assign(colour);
        proof {
            assert(colour_outcome(r, world@, max_depth as int, colour));
            assert(sample_outcome(
                world@,
                *cam,
                i as int,
                j as int,
                image_width as int,
                image_height as int,
                max_depth as int,
                colour,
            ));
            assert(pixel_color == before.plus(colour));
        }
        k = k + 1;
    }
    let pixel = write_colours(pixel_color, samples_per_pixel);
    proof {
        assert(sum_outcome(
            world@,
            *cam,
            i as int,
            j as int,
            image_width as int,
            image_height as int,
            max_depth as int,
            samples_per_pixel as int,
            pixel_color,
        ));
        assert(pixel@ == tone_mapped(pixel_color, samples_per_pixel as int));
    }
    pixel
}

/// Renders the whole image: one pixel of three bytes for every place,
/// row by row, the pixel in column `i` and row `j` at
/// `j * image_width + i`.
pub fn render(
    world: &Vec<Sphere>,
    cam: &Camera,
    image_width: u32,
    image_height: u32,
    samples_per_pixel: i32,
    max_depth: i32,
) -> (pixels: Vec<[u8; 3]>)
    requires
        image_width * image_height <= usize::MAX,
    ensures
        pixels.len() == image_width * image_height,
        forall|at: int|
            0 <= at < pixels.len() ==> pixel_outcome(
                world@,
                *cam,
                at % (image_width as int),
                at / (image_width as int),
                image_width as int,
                image_height as int,
                samples_per_pixel as int,
                max_depth as int,
                (#[trigger] pixels[at])@,
            ),
{
    let mut pixels: Vec<[u8; 3]> = Vec::new();
    let mut j: u32 = 0;
    while j < image_height
        invariant
            j <= image_height,
            image_width * image_height <= usize::MAX,
            pixels.len() == j * image_width,
            forall|at: int|
                0 <= at < pixels.len() ==> pixel_outcome(
                    world@,
                    *cam,
                    at % (image_width as int),
                    at / (image_width as int),
                    image_width as int,
                    image_height as int,
                    samples_per_pixel as int,
                    max_depth as int,
                    (#[trigger] pixels[at])@,
                ),
        decreases image_height - j,
    {
        let mut i: u32 = 0;
        while i < image_width
            invariant
                j < image_height,
                i <= image_width,
                image_width * image_height <= usize::MAX,
                pixels.len() == j * image_width + i,
                forall|at: int|
                    0 <= at < pixels.len() ==> pixel_outcome(
                        world@,
                        *cam,
                        at % (image_width as int),
                        at / (image_width as int),
                        image_width as int,
                        image_height as int,
                        samples_per_pixel as int,
                        max_depth as int,
                        (#[trigger] pixels[at])@,
                    ),
            decreases image_width - i,
        {
            let pixel = render_pixel(
                world,
                cam,
                i,
                j,
                image_width,
                image_height,
                samples_per_pixel,
                max_depth,
            );
            proof {
                let at = j * image_width + i;
                vstd::arithmetic::div_mod::lemma_fundamental_div_mod_converse(
                    at,
                    image_width as int,
                    j as int,
                    i as int,
                );
                assert((j + 1) * image_width <= image_height * image_width) by (nonlinear_arith)
                    requires
                        j + 1 <= image_height,
                        image_width >= 0,
                ;
                assert((j + 1) * image_width == j * image_width + image_width)
                    by (nonlinear_arith);
                assert(image_height * image_width == image_width * image_height)
                    by (nonlinear_arith);
            }
            pixels.push(pixel);
            i = i + 1;
        }
        proof {
            assert((j + 1) * image_width == j * image_width + image_width) by (nonlinear_arith);
        }
        j = j + 1;
    }
    proof {
        assert(j == image_height);
        assert(image_height * image_width == image_width * image_height) by (nonlinear_arith);
    }
    pixels
}

} // verus!
