use raytracer::camera::Camera;
use raytracer::colours::write_colours;
use raytracer::fixed::Fixed;
use raytracer::hittable::{hit_world, Hittable};
use raytracer::material::{Draw, Lambertian, Material, Metal};
use raytracer::ray::Ray;
use raytracer::render::{
    advance, background, bounce, primary_ray, ray_colour, ray_colour_with, render, render_pixel,
    start_path, trace, Bounce, Path, Step,
};
use raytracer::sphere::Sphere;
use raytracer::vec3::Vec3;
use raytracer::world::make_world;

fn v(x: i32, y: i32, z: i32) -> Vec3 {
    Vec3::new(Fixed::from_int(x), Fixed::from_int(y), Fixed::from_int(z))
}

fn raw(x: i64, y: i64, z: i64) -> Vec3 {
    Vec3::new(Fixed::from_raw(x), Fixed::from_raw(y), Fixed::from_raw(z))
}

fn grey_ball() -> Sphere {
    let half = Fixed::from_ratio(1, 2);
    Sphere::new(v(0, 0, -1), half, Material::Lambertian(Lambertian::new(Vec3::new(half, half, half))))
}

fn mirror_ball() -> Sphere {
    let albedo = Vec3::new(Fixed::from_ratio(1, 2), Fixed::from_ratio(1, 4), Fixed::one());
    Sphere::new(v(0, 0, -2), Fixed::one(), Material::Metal(Metal::new(albedo, Fixed::zero())))
}

fn straight_camera() -> Camera {
    Camera::new(
        v(0, 0, 0),
        v(0, 0, -1),
        v(0, 1, 0),
        Fixed::one(),
        Fixed::from_int(90),
        Fixed::zero(),
        Fixed::one(),
    )
}

#[test]
fn the_sky_is_white_below_and_blue_above() {
    let blue = Vec3::new(Fixed::from_ratio(1, 2), Fixed::from_ratio(7, 10), Fixed::one());
    assert_eq!(background(&Ray::new(v(0, 0, 0), v(0, 3, 0))), blue);
    assert_eq!(background(&Ray::new(v(0, 0, 0), v(0, -3, 0))), v(1, 1, 1));
    assert_eq!(background(&Ray::new(v(0, 0, 0), v(0, 0, -1))), raw(3221225472, 3650722201, 4294967296));
    assert_eq!(background(&Ray::new(v(0, 0, 0), v(0, 1, 1))), raw(2461975347, 3195172126, 4294967296));
}

#[test]
fn without_a_bounce_left_the_estimate_is_black() {
    let world = vec![grey_ball(), mirror_ball()];
    let empty: Vec<Sphere> = Vec::new();
    let full = make_world();
    for dir in [v(0, 0, -1), v(0, 1, 0), v(1, 1, 1), v(0, 0, 0)] {
        let ray = Ray::new(v(0, 0, 0), dir);
        assert_eq!(ray_colour(&ray, &world, 0), v(0, 0, 0));
        assert_eq!(ray_colour(&ray, &world, -3), v(0, 0, 0));
        assert_eq!(ray_colour(&ray, &empty, 0), v(0, 0, 0));
        assert_eq!(ray_colour(&ray, &full, 0), v(0, 0, 0));
    }
}

#[test]
fn a_ray_that_hits_nothing_sees_the_sky() {
    let world = vec![grey_ball()];
    let up = Ray::new(v(0, 0, 0), v(0, 1, 0));
    assert_eq!(ray_colour(&up, &world, 5), background(&up));
    assert_eq!(ray_colour(&up, &Vec::new(), 1), background(&up));
    assert_eq!(bounce(&up, &world), Bounce::Finished(background(&up)));
}

#[test]
fn a_hit_on_the_last_bounce_is_black() {
    let world = vec![grey_ball()];
    let ray = Ray::new(v(0, 0, 0), v(0, 0, -1));
    for _ in 0..20 {
        assert_eq!(ray_colour(&ray, &world, 1), v(0, 0, 0));
    }
}

#[test]
fn a_mirror_shows_the_sky_dimmed_by_its_albedo() {
    let world = vec![mirror_ball()];
    let ray = Ray::new(v(0, 0, 0), v(0, 0, -1));
    let back = Ray::new(v(0, 0, -1), v(0, 0, 1));
    let albedo = Vec3::new(Fixed::from_ratio(1, 2), Fixed::from_ratio(1, 4), Fixed::one());
    assert_eq!(bounce(&ray, &world), Bounce::Scattered(back, albedo));
    assert_eq!(ray_colour(&ray, &world, 2), albedo * background(&back));
    assert_eq!(ray_colour(&ray, &world, 50), albedo * background(&back));
}

#[test]
fn a_hit_closer_than_the_shadow_bias_does_not_count() {
    let world = vec![mirror_ball()];
    let on_the_surface = Ray::new(v(0, 0, -1), v(0, 0, 1));
    assert_eq!(bounce(&on_the_surface, &world), Bounce::Finished(background(&on_the_surface)));
    let inward = Ray::new(v(0, 0, -1), v(0, 0, -1));
    let seen = hit_world(&world, &inward, Fixed::from_ratio(1, 1000), Fixed::max_value()).unwrap();
    assert_eq!(seen.t, Fixed::from_int(2));
}

#[test]
fn a_path_is_followed_step_by_step() {
    let world = vec![mirror_ball()];
    let ray = Ray::new(v(0, 0, 0), v(0, 0, -1));
    let back = Ray::new(v(0, 0, -1), v(0, 0, 1));
    let albedo = Vec3::new(Fixed::from_ratio(1, 2), Fixed::from_ratio(1, 4), Fixed::one());
    let start = start_path(ray, 2);
    assert_eq!(start, Path { ray, throughput: v(1, 1, 1), bounces_left: 2 });
    let next = Path { ray: back, throughput: albedo, bounces_left: 1 };
    assert_eq!(advance(&start, &world), Step::Continue(next));
    assert_eq!(advance(&next, &world), Step::Done(albedo * background(&back)));
    assert_eq!(advance(&next, &world), Step::Done(ray_colour(&ray, &world, 2)));
    let spent = Path { ray, throughput: albedo, bounces_left: 0 };
    assert_eq!(advance(&spent, &world), Step::Done(v(0, 0, 0)));
}

#[test]
fn following_a_path_ends_within_its_bounces() {
    let world = make_world();
    let mut path = start_path(Ray::new(v(13, 2, 3), v(-13, -2, -3)), 8);
    let mut steps = 0;
    loop {
        steps += 1;
        match advance(&path, &world) {
            Step::Done(_) => break,
            Step::Continue(next) => {
                assert_eq!(next.bounces_left, path.bounces_left - 1);
                path = next;
            }
        }
    }
    assert!(steps <= 9);
}

#[test]
fn one_grey_sphere_in_front_of_the_camera() {
    let world = vec![grey_ball()];
    let cam = straight_camera();
    let centre = cam.get_ray_from(Fixed::from_ratio(1, 2), Fixed::from_ratio(1, 2), v(0, 0, 0));
    assert_eq!(centre, Ray::new(v(0, 0, 0), v(0, 0, -1)));
    assert_eq!(write_colours(ray_colour(&centre, &world, 1), 1), [0, 0, 0]);
    for _ in 0..20 {
        assert_eq!(render_pixel(&world, &cam, 50, 50, 101, 101, 1, 1), [0, 0, 0]);
        assert_eq!(render_pixel(&world, &cam, 50, 50, 101, 101, 4, 1), [0, 0, 0]);
    }

    let hit = world[0].hit(&centre, Fixed::from_ratio(1, 1000), Fixed::max_value()).unwrap();
    assert_eq!(hit.normal, v(0, 0, 1));
    let grey = match hit.material {
        Material::Lambertian(l) => l,
        _ => panic!("the sphere is diffuse"),
    };
    let (scattered, attenuation) = grey.scatter_with(hit, v(0, 1, 0));
    let scattered = scattered.unwrap();
    assert_eq!(scattered.dir(), v(0, 1, 1));
    let colour = attenuation * ray_colour(&scattered, &world, 1);
    assert_eq!(colour, raw(1230987673, 1597586063, 2147483648));
    assert_eq!(write_colours(colour, 1), [137, 156, 181]);
}

#[test]
fn a_primary_ray_goes_through_its_pixel() {
    let cam = straight_camera();
    for _ in 0..100 {
        let ray = primary_ray(&cam, 0, 2, 3, 3);
        assert_eq!(ray.origin(), v(0, 0, 0));
        assert_eq!(ray.dir().z(), Fixed::from_int(-1));
        let x = ray.dir().x();
        let y = ray.dir().y();
        assert!(x.ge(Fixed::from_raw(-4294967300)) && x.lt(Fixed::zero()));
        assert!(y.ge(Fixed::from_int(1)) && y.lt(Fixed::from_int(2)));
    }
}

#[test]
fn an_image_has_a_pixel_for_every_place() {
    let world = vec![grey_ball()];
    let cam = straight_camera();
    let pixels = render(&world, &cam, 4, 3, 2, 3);
    assert_eq!(pixels.len(), 12);
    let sky_only = render(&Vec::new(), &cam, 4, 3, 2, 3);
    assert_eq!(sky_only.len(), 12);
    for p in &sky_only {
        assert_eq!(p[2], 255);
        assert!(p[0] >= 181 && p[1] >= p[0]);
    }
    assert!(render(&world, &cam, 4, 0, 2, 3).is_empty());
    assert!(render(&world, &cam, 0, 4, 2, 3).is_empty());
    let dark = render(&world, &cam, 3, 3, 1, 0);
    assert_eq!(dark, vec![[0u8, 0, 0]; 9]);
    let image = render(&world, &cam, 21, 11, 1, 1);
    assert_eq!(image.len(), 231);
    assert_eq!(image[5 * 21 + 10], [0, 0, 0]);
    assert_eq!(image[0][2], 255);
}

#[test]
fn a_pixel_without_samples_is_black() {
    let world = vec![grey_ball()];
    let cam = straight_camera();
    assert_eq!(render_pixel(&world, &cam, 0, 0, 3, 3, 0, 5), [0, 0, 0]);
    assert_eq!(render_pixel(&world, &cam, 0, 0, 3, 3, -2, 5), [0, 0, 0]);
}

#[test]
fn a_path_followed_step_by_step_gives_the_estimate() {
    let world = vec![mirror_ball()];
    let ray = Ray::new(v(0, 0, 0), v(0, 0, -1));
    let up = Ray::new(v(0, 0, 0), v(0, 1, 0));
    for depth in [2, 3, 50] {
        assert_eq!(trace(&ray, &world, depth), ray_colour(&ray, &world, depth));
        assert_eq!(trace(&up, &world, depth), background(&up));
    }
    assert_eq!(trace(&ray, &world, 1), v(0, 0, 0));
    assert_eq!(trace(&ray, &world, 0), v(0, 0, 0));
    assert_eq!(trace(&up, &world, 0), v(0, 0, 0));
    assert_eq!(trace(&up, &world, -1), v(0, 0, 0));
    let full = make_world();
    for _ in 0..20 {
        let c = trace(&Ray::new(v(13, 2, 3), v(-13, -2, -3)), &full, 16);
        assert!(c.x().ge(Fixed::zero()) && c.y().ge(Fixed::zero()) && c.z().ge(Fixed::zero()));
    }
}

#[test]
fn the_sky_along_a_short_direction_is_the_sky_along_a_long_one() {
    let down = Vec3::new(Fixed::zero(), Fixed::from_raw(-92681), Fixed::zero());
    let short = Ray::new(v(0, 0, 0), down);
    assert_eq!(background(&short), v(1, 1, 1));
    assert_eq!(ray_colour(&short, &Vec::new(), 1), v(1, 1, 1));
    let level = Vec3::new(Fixed::from_raw(3), Fixed::zero(), Fixed::from_raw(-4));
    assert_eq!(
        background(&Ray::new(v(0, 0, 0), level)),
        background(&Ray::new(v(0, 0, 0), v(3, 0, -4)))
    );
    for k in 0..60 {
        for (x, y, z) in [(1i64, 1i64, 1i64), (0, -1, 0), (0, 1, 0), (-3, 2, 5), (7, -9, 1)] {
            let d = Vec3::new(Fixed::from_raw(x << k), Fixed::from_raw(y << k), Fixed::from_raw(z << k));
            let c = background(&Ray::new(v(0, 0, 0), d));
            for channel in [c.x(), c.y(), c.z()] {
                assert!(channel.ge(Fixed::zero()) && channel.le(Fixed::one()));
            }
        }
    }
}

#[test]
fn no_estimate_is_brighter_than_the_sky() {
    let full = make_world();
    let few = vec![grey_ball(), mirror_ball()];
    for k in [0u32, 7, 16, 25, 32, 40] {
        for (x, y, z) in [(0i64, 0i64, -1i64), (1, 1, -3), (-2, -1, -4), (0, -1, 0), (3, 0, -1)] {
            let d = Vec3::new(Fixed::from_raw(x << k), Fixed::from_raw(y << k), Fixed::from_raw(z << k));
            for (world, origin) in [(&few, v(0, 0, 0)), (&full, v(13, 2, 3))] {
                let c = ray_colour(&Ray::new(origin, d), world, 6);
                for channel in [c.x(), c.y(), c.z()] {
                    assert!(channel.ge(Fixed::zero()) && channel.le(Fixed::one()));
                }
            }
        }
    }
}

fn still() -> Draw {
    Draw { unit: v(0, 0, 0), shift: v(0, 0, 0), share: Fixed::zero() }
}

#[test]
fn with_the_draws_fixed_to_zero_the_centre_pixel_is_the_dimmed_sky() {
    let world = vec![grey_ball()];
    let cam = straight_camera();
    let centre = cam.get_ray_from(Fixed::from_ratio(1, 2), Fixed::from_ratio(1, 2), v(0, 0, 0));
    let draws = vec![still(); 4];
    assert_eq!(ray_colour_with(&centre, &world, 0, &draws), v(0, 0, 0));
    assert_eq!(write_colours(ray_colour_with(&centre, &world, 1, &draws), 1), [0, 0, 0]);
    let away = Ray::new(Vec3::new(Fixed::zero(), Fixed::zero(), Fixed::from_ratio(-1, 2)), v(0, 0, 1));
    let half = Fixed::from_ratio(1, 2);
    let expected = Vec3::new(half, half, half) * background(&away);
    assert_eq!(ray_colour_with(&centre, &world, 2, &draws), expected);
    assert_eq!(ray_colour_with(&centre, &world, 4, &draws), expected);
    assert_eq!(expected, raw(1610612736, 1825361100, 2147483648));
    assert_eq!(write_colours(expected, 1), [156, 166, 181]);
}

#[test]
fn the_same_draws_give_the_same_colour() {
    let world = make_world();
    let ray = Ray::new(v(13, 2, 3), v(-13, -2, -3));
    let draws: Vec<Draw> = (0..8)
        .map(|_| Draw {
            unit: Vec3::rand_unit_vec(),
            shift: Vec3::rand_in_unit_sphere(),
            share: Vec3::rand_vec().x(),
        })
        .collect();
    let first = ray_colour_with(&ray, &world, 8, &draws);
    for _ in 0..20 {
        assert_eq!(ray_colour_with(&ray, &world, 8, &draws), first);
    }
    let few = vec![mirror_ball()];
    let straight = Ray::new(v(0, 0, 0), v(0, 0, -1));
    assert_eq!(ray_colour_with(&straight, &few, 5, &draws), ray_colour(&straight, &few, 5));
    assert_eq!(ray_colour_with(&straight, &few, 5, &Vec::new()), v(0, 0, 0));
    let up = Ray::new(v(0, 0, 0), v(0, 1, 0));
    assert_eq!(ray_colour_with(&up, &few, 5, &Vec::new()), background(&up));
}
