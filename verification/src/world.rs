//! A scene of random small spheres on a large one, with three big spheres
//! in their midst.
use crate::fixed::{Fixed, ONE_RAW};
use crate::material::{Dielectric, Lambertian, Material, Metal};
use crate::random::{thread_generator, uniform, uniform_unit};
use crate::sphere::Sphere;
use crate::utils::{rand_vec, rand_vec_range};
use crate::vec3::Vec3;
use vstd::prelude::*;

verus! {

/// The vector with the whole-numbered numerators over one denominator.
pub open spec fn fractions(x: int, y: int, z: int, den: int) -> Vec3 {
    Vec3 { x: Fixed::ratio(x, den), y: Fixed::ratio(y, den), z: Fixed::ratio(z, den) }
}

/// The ground: a grey diffuse sphere of radius 1000 below the scene.
pub open spec fn ground(s: Sphere) -> bool {
    &&& s.center == fractions(0, -1000, 0, 1)
    &&& s.radius == Fixed::whole(1000)
    &&& s.node_index == 0
    &&& s.mat_ptr matches Material::Lambertian(l) && l.albedo() == fractions(1, 1, 1, 2)
}

/// The three big spheres, in the order in which they close the scene: one
/// of glass, one diffuse, one of polished metal.
pub open spec fn landmark(s: Sphere, which: int) -> bool {
    &&& s.radius == Fixed::whole(1)
    &&& s.node_index == 0
    &&& if which == 0 {
        &&& s.center == fractions(0, 1, 0, 1)
        &&& s.mat_ptr matches Material::Dielectric(d) && d.ir() == Fixed::ratio(3, 2)
    } else if which == 1 {
        &&& s.center == fractions(-4, 1, 0, 1)
        &&& s.mat_ptr matches Material::Lambertian(l) && l.albedo() == fractions(4, 2, 1, 10)
    } else {
        &&& s.center == fractions(4, 1, 0, 1)
        &&& s.mat_ptr matches Material::Metal(m) && m.albedo() == fractions(7, 6, 5, 10)
            && m.fuzz() == Fixed::whole(0)
    }
}

/// Whether a small sphere at `center` keeps clear of the big metal sphere:
/// it lies farther than `0.9` from `(4, 0.2, 0)`.
pub open spec fn keeps_clear(center: Vec3) -> bool {
    center.minus(
        Vec3 { x: Fixed::whole(4), y: Fixed::ratio(1, 5), z: Fixed::whole(0) },
    ).spec_length()@ > Fixed::ratio(9, 10)@
}

/// Whether `m` is a material that the draw `choose_mat` allows: diffuse
/// with an albedo in `[0, 1)` for a draw of at most `0.8`, metal with an
/// albedo in `[0.5, 1)` and a fuzz of at most `0.5` for a draw from `0.81`
/// to `0.95`, and glass of index `1.5` for any other.
pub open spec fn material_allowed(choose_mat: Fixed, m: Material) -> bool {
    if 0 <= choose_mat@ <= Fixed::ratio(4, 5)@ {
        m matches Material::Lambertian(l) && l.albedo().within(Fixed::whole(0), Fixed::whole(1))
    } else if Fixed::ratio(81, 100)@ <= choose_mat@ <= Fixed::ratio(19, 20)@ {
        m matches Material::Metal(t) && t.albedo().within(Fixed::ratio(1, 2), Fixed::whole(1)) && 0
            <= t.fuzz()@ <= Fixed::ratio(1, 2)@
    } else {
        m matches Material::Dielectric(d) && d.ir() == Fixed::ratio(3, 2)
    }
}

/// Whether `center` lies in the cell `(a, b)` of the grid: `a` and `b` are
/// whole, and the centre lies less than `0.9` beyond them in `x` and `z`.
pub open spec fn in_cell(center: Vec3, a: int, b: int) -> bool {
    &&& Fixed::whole(a)@ <= center.x@ < Fixed::whole(a)@ + Fixed::ratio(9, 10)@
    &&& Fixed::whole(b)@ <= center.z@ < Fixed::whole(b)@ + Fixed::ratio(9, 10)@
}

/// Whether every place in the cell `(a, b)` keeps clear of the big metal
/// sphere, so that the cell always holds a small sphere: all cells but the
/// four with `a` of 3 or 4 and `b` of -1 or 0.
pub open spec fn always_clear(a: int, b: int) -> bool {
    a <= 2 || a >= 5 || b <= -2 || b >= 1
}

/// Whether one of the spheres of `world` from the second to the one
/// before `count` has its centre in the cell `(a, b)`.
pub open spec fn holds(world: Seq<Sphere>, count: int, a: int, b: int) -> bool {
    exists|k: int| 1 <= k < count && #[trigger] in_cell(world[k].center, a, b)
}

/// Whether `s` is one of the small spheres: of radius `0.2`, resting on
/// the ground inside a cell of the grid, clear of the big metal sphere,
/// and of a material that some draw allows.
pub open spec fn small(s: Sphere) -> bool {
    &&& s.radius == Fixed::ratio(1, 5)
    &&& s.node_index == 0
    &&& s.center.y == Fixed::ratio(1, 5)
    &&& exists|a: int, b: int|
        -11 <= a < 11 && -11 <= b < 11 && #[trigger] in_cell(s.center, a, b)
    &&& keeps_clear(s.center)
    &&& exists|choose_mat: Fixed|
        0 <= choose_mat@ < ONE_RAW && #[trigger] material_allowed(choose_mat, s.mat_ptr)
}

/// Whether `world` is a scene as [`make_world`] builds it: the ground
/// first, then at most one small sphere for each of the 22 by 22 cells of
/// the grid and one for each cell that is always clear, then the three big
/// spheres.
pub open spec fn scene(world: Seq<Sphere>) -> bool {
    &&& 484 <= world.len() <= 488
    &&& ground(world[0])
    &&& forall|k: int| 1 <= k < world.len() - 3 ==> small(#[trigger] world[k])
    &&& forall|a: int, b: int|
        -11 <= a < 11 && -11 <= b < 11 && always_clear(a, b) ==> #[trigger] holds(
            world,
            world.len() - 3,
            a,
            b,
        )
    &&& landmark(world[world.len() - 3], 0)
    &&& landmark(world[world.len() - 2], 1)
    &&& landmark(world[world.len() - 1], 2)
}

/// How many of the cells before `(a, b)`, row by row, are not always
/// clear.
pub open spec fn optional_before(a: int, b: int) -> int {
    (if a <= 3 {
        0int
    } else if a == 4 {
        2int
    } else {
        4int
    }) + (if a == 3 || a == 4 {
        if b <= -1 {
            0int
        } else if b == 0 {
            1int
        } else {
            2int
        }
    } else {
        0int
    })
}

/// Whether a small sphere may lie at `center`.
pub fn clear_of_landmark(center: Vec3) -> (r: bool)
    ensures
        r == keeps_clear(center),
{
    (center - Vec3::new(Fixed::from_int(4), Fixed::from_ratio(1, 5), Fixed::zero())).length().gt(
        Fixed::from_ratio(9, 10),
    )
}

/// A material for the draw `choose_mat`, with random colours.
pub fn pick_material(choose_mat: Fixed) -> (m: Material)
    ensures
        material_allowed(choose_mat, m),
{
    if choose_mat.ge(Fixed::zero()) && choose_mat.le(Fixed::from_ratio(4, 5)) {
        let p = rand_vec();
        let q = rand_vec();
        let albedo = p * q;
        proof {
            p.x.lemma_times_unit(q.x);
            p.y.lemma_times_unit(q.y);
            p.z.lemma_times_unit(q.z);
        }
        Material::Lambertian(Lambertian::new(albedo))
    } else if choose_mat.ge(Fixed::from_ratio(81, 100)) && choose_mat.le(Fixed::from_ratio(19, 20)) {
        let albedo = rand_vec_range(Fixed::from_ratio(1, 2), Fixed::one());
        let mut rng = thread_generator();
        let fuzz = uniform(&mut rng, Fixed::zero(), Fixed::from_raw(ONE_RAW / 2 + 1));
        Material::Metal(Metal::new(albedo, fuzz))
    } else {
        Material::Dielectric(Dielectric::new(Fixed::from_ratio(3, 2)))
    }
}

/// Builds the scene.
pub fn make_world() -> (world: Vec<Sphere>)
    ensures
        scene(world@),
{
    let mut world: Vec<Sphere> = Vec::new();

    let mat_ground = Lambertian::new(
        Vec3::new(Fixed::from_ratio(1, 2), Fixed::from_ratio(1, 2), Fixed::from_ratio(1, 2)),
    );
    world.push(
        Sphere::new(
            Vec3::new(Fixed::from_int(0), Fixed::from_int(-1000), Fixed::from_int(0)),
            Fixed::from_int(1000),
            Material::Lambertian(mat_ground),
        ),
    );
    assert(ground(world@[0]));

    let mut rng = thread_generator();

    let mut a: i32 = -11;
    while a < 11
        invariant
            -11 <= a <= 11,
            1 + (a + 11) * 22 - optional_before(a as int, -11) <= world.len() <= 1 + (a + 11) * 22,
            ground(world@[0]),
            forall|k: int| 1 <= k < world.len() ==> small(#[trigger] world@[k]),
            forall|a2: int, b2: int|
                -11 <= a2 < a && -11 <= b2 < 11 && always_clear(a2, b2) ==> #[trigger] holds(
                    world@,
                    world.len() as int,
                    a2,
                    b2,
                ),
        decreases 11 - a,
    {
        let mut b: i32 = -11;
        while b < 11
            invariant
                -11 <= a < 11,
                -11 <= b <= 11,
                1 + (a + 11) * 22 + (b + 11) - optional_before(a as int, b as int) <= world.len()
                    <= 1 + (a + 11) * 22 + (b + 11),
                ground(world@[0]),
                forall|k: int| 1 <= k < world.len() ==> small(#[trigger] world@[k]),
                forall|a2: int, b2: int|
                    ((-11 <= a2 < a && -11 <= b2 < 11) || (a2 == a && -11 <= b2 < b))
                        && always_clear(a2, b2) ==> #[trigger] holds(
                        world@,
                        world.len() as int,
                        a2,
                        b2,
                    ),
            decreases 11 - b,
        {
            let choose_mat = uniform_unit(&mut rng);
            let center = Vec3::new(
                Fixed::from_int(a) + Fixed::from_ratio(9, 10) * uniform_unit(&mut rng),
                Fixed::from_ratio(1, 5),
                Fixed::from_int(b) + Fixed::from_ratio(9, 10) * uniform_unit(&mut rng),
            );
            proof {
                lemma_cell(a as int, center.x);
                lemma_cell(b as int, center.z);
                assert(in_cell(center, a as int, b as int));
                if always_clear(a as int, b as int) {
                    lemma_clear_cell(center, a as int, b as int);
                }
            }

            if clear_of_landmark(center) {
                let sphere_mat = pick_material(choose_mat);
                let sphere = Sphere::new(center, Fixed::from_ratio(1, 5), sphere_mat);
                let ghost before = world@;
                proof {
                    assert(material_allowed(choose_mat, sphere.mat_ptr));
                    assert(small(sphere));
                }
                world.push(sphere);
                proof {
                    assert forall|a2: int, b2: int|
                        ((-11 <= a2 < a && -11 <= b2 < 11) || (a2 == a && -11 <= b2 < b + 1))
                            && always_clear(a2, b2) implies #[trigger] holds(
                        world@,
                        world.len() as int,
                        a2,
                        b2,
                    ) by {
                        if a2 == a && b2 == b {
                            assert(in_cell(world@[before.len() as int].center, a2, b2));
                        } else {
                            assert(holds(before, before.len() as int, a2, b2));
                            let k = choose|k: int|
                                1 <= k < before.len() && #[trigger] in_cell(
                                    before[k].center,
                                    a2,
                                    b2,
                                );
                            assert(in_cell(world@[k].center, a2, b2));
                        }
                    }
                }
            }
            b = b + 1;
        }
        a = a + 1;
    }
    let ghost grid = world@;

    let mat1: Material = Material::Dielectric(Dielectric::new(Fixed::from_ratio(3, 2)));
    world.push(
        Sphere::new(Vec3::new(Fixed::from_int(0), Fixed::from_int(1), Fixed::from_int(0)), Fixed::one(), mat1),
    );

    let mat2: Material = Material::Lambertian(
        Lambertian::new(
            Vec3::new(Fixed::from_ratio(4, 10), Fixed::from_ratio(2, 10), Fixed::from_ratio(1, 10)),
        ),
    );
    world.push(
        Sphere::new(Vec3::new(Fixed::from_int(-4), Fixed::from_int(1), Fixed::from_int(0)), Fixed::one(), mat2),
    );

    let mat3: Material = Material::Metal(
        Metal::new(
            Vec3::new(Fixed::from_ratio(7, 10), Fixed::from_ratio(6, 10), Fixed::from_ratio(5, 10)),
            Fixed::zero(),
        ),
    );
    world.push(
        Sphere::new(Vec3::new(Fixed::from_int(4), Fixed::from_int(1), Fixed::from_int(0)), Fixed::one(), mat3),
    );

    proof {
        assert(484 <= world.len() <= 488);
        assert(world.len() == grid.len() + 3);
        assert(ground(world@[0]));
        assert forall|k: int| 1 <= k < world.len() - 3 implies small(#[trigger] world@[k]) by {
            assert(world@[k] == grid[k]);
        }
        assert forall|a2: int, b2: int|
            -11 <= a2 < 11 && -11 <= b2 < 11 && always_clear(a2, b2) implies #[trigger] holds(
            world@,
            world.len() - 3,
            a2,
            b2,
        ) by {
            assert(holds(grid, grid.len() as int, a2, b2));
            let k = choose|k: int|
                1 <= k < grid.len() && #[trigger] in_cell(grid[k].center, a2, b2);
            assert(in_cell(world@[k].center, a2, b2));
        }
    }
    world
}

/// A place in a cell that is always clear lies farther than `0.9` from the
/// centre of the big metal sphere: it is at least one away from it along
/// `x` or along `z`.
proof fn lemma_clear_cell(center: Vec3, a: int, b: int)
    requires
        -11 <= a < 11,
        -11 <= b < 11,
        always_clear(a, b),
        in_cell(center, a, b),
    ensures
        keeps_clear(center),
{
    let off = center.minus(Vec3 { x: Fixed::whole(4), y: Fixed::ratio(1, 5), z: Fixed::whole(0) });
    let far = if a <= 2 || a >= 5 {
        off.x@
    } else {
        off.z@
    };
    assert(far >= ONE_RAW || far <= -ONE_RAW);
    assert(off.x@ * off.x@ >= 0) by (nonlinear_arith);
    assert(off.y@ * off.y@ >= 0) by (nonlinear_arith);
    assert(off.z@ * off.z@ >= 0) by (nonlinear_arith);
    assert(far * far >= ONE_RAW * ONE_RAW) by (nonlinear_arith)
        requires
            far >= ONE_RAW || far <= -ONE_RAW,
            ONE_RAW > 0,
    ;
    crate::fixed::lemma_floor_sqrt_at_least(off.raw_dot(off), ONE_RAW as int);
}

/// A whole number from -11 to 10 plus nine tenths of a number of `[0, 1)`
/// lies less than nine tenths beyond the whole number.
proof fn lemma_cell(a: int, x: Fixed)
    requires
        -11 <= a < 11,
        exists|d: Fixed|
            0 <= d@ < ONE_RAW && x == #[trigger] Fixed::whole(a).plus(Fixed::ratio(9, 10).times(d)),
    ensures
        Fixed::whole(a)@ <= x@ < Fixed::whole(a)@ + Fixed::ratio(9, 10)@,
{
    let d = choose|d: Fixed|
        0 <= d@ < ONE_RAW && x == #[trigger] Fixed::whole(a).plus(Fixed::ratio(9, 10).times(d));
    let k = Fixed::ratio(9, 10);
    let p = k@ * d@;
    assert(0 <= p < ONE_RAW * k@) by (nonlinear_arith)
        requires
            p == k@ * d@,
            0 <= d@ < ONE_RAW,
            k@ > 0,
    ;
    vstd::arithmetic::div_mod::lemma_multiply_divide_lt(p, ONE_RAW as int, k@);
    vstd::arithmetic::div_mod::lemma_div_pos_is_pos(p, ONE_RAW as int);
}

} // verus!
