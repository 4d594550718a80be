use raytracer::fixed::Fixed;
use raytracer::hittable::{hit_world, HitRecord, Hittable};
use raytracer::material::{Dielectric, Lambertian, Material};
use raytracer::ray::Ray;
use raytracer::sphere::Sphere;
use raytracer::vec3::Vec3;
use std::ops::Neg;

fn v(x: i32, y: i32, z: i32) -> Vec3 {
    Vec3::new(Fixed::from_int(x), Fixed::from_int(y), Fixed::from_int(z))
}

fn grey() -> Material {
    let half = Fixed::from_ratio(1, 2);
    Material::Lambertian(Lambertian::new(Vec3::new(half, half, half)))
}

fn glass() -> Material {
    Material::Dielectric(Dielectric::new(Fixed::from_ratio(3, 2)))
}

#[test]
fn a_ray_keeps_its_origin_and_direction() {
    let r = Ray::new(v(1, 2, 3), v(2, 0, -4));
    assert_eq!(r.origin(), v(1, 2, 3));
    assert_eq!(r.dir(), v(2, 0, -4));
    assert_eq!(r.dir_inv, Vec3::new(
        Fixed::from_ratio(1, 2),
        Fixed::max_value(),
        Fixed::from_ratio(-1, 4),
    ));
}

#[test]
fn the_point_at_a_parameter() {
    let r = Ray::new(v(1, 2, 3), v(2, 0, -4));
    assert_eq!(r.at(Fixed::zero()), v(1, 2, 3));
    assert_eq!(r.at(Fixed::from_int(2)), v(5, 2, -5));
    assert_eq!(r.at(Fixed::from_ratio(-1, 2)), v(0, 2, 5));
}

#[test]
fn hit_straight_on_takes_the_smaller_root() {
    let sphere = Sphere::new(v(0, 0, -1), Fixed::from_ratio(1, 2), grey());
    let ray = Ray::new(v(0, 0, 0), v(0, 0, -1));
    let hit = sphere.hit(&ray, Fixed::zero(), Fixed::max_value()).unwrap();
    assert_eq!(hit.t, Fixed::from_ratio(1, 2));
    assert_eq!(hit.p, Vec3::new(Fixed::zero(), Fixed::zero(), Fixed::from_ratio(-1, 2)));
    assert_eq!(hit.normal, v(0, 0, 1));
    assert!(hit.front_face);
    assert_eq!(hit.material, grey());
}

#[test]
fn hit_from_inside_takes_the_larger_root() {
    let sphere = Sphere::new(v(0, 0, -1), Fixed::from_ratio(1, 2), grey());
    let ray = Ray::new(v(0, 0, -1), v(0, 0, -1));
    let hit = sphere.hit(&ray, Fixed::zero(), Fixed::max_value()).unwrap();
    assert_eq!(hit.t, Fixed::from_ratio(1, 2));
    assert_eq!(hit.p, Vec3::new(Fixed::zero(), Fixed::zero(), Fixed::from_ratio(-3, 2)));
    assert_eq!(hit.normal, v(0, 0, 1));
    assert!(!hit.front_face);
}

#[test]
fn the_larger_root_is_taken_when_the_smaller_lies_before_the_interval() {
    let sphere = Sphere::new(v(0, 0, -1), Fixed::from_ratio(1, 2), grey());
    let ray = Ray::new(v(0, 0, 0), v(0, 0, -1));
    let hit = sphere.hit(&ray, Fixed::from_int(1), Fixed::from_int(2)).unwrap();
    assert_eq!(hit.t, Fixed::from_ratio(3, 2));
    assert!(!hit.front_face);
    assert_eq!(hit.normal, v(0, 0, 1));
}

#[test]
fn no_hit_when_both_roots_lie_outside_the_interval() {
    let sphere = Sphere::new(v(0, 0, -1), Fixed::from_ratio(1, 2), grey());
    let ray = Ray::new(v(0, 0, 0), v(0, 0, -1));
    assert!(sphere.hit(&ray, Fixed::from_int(2), Fixed::max_value()).is_none());
    assert!(sphere.hit(&ray, Fixed::zero(), Fixed::from_ratio(1, 4)).is_none());
    assert!(sphere.hit(&ray, Fixed::from_ratio(3, 4), Fixed::from_int(1)).is_none());
}

#[test]
fn the_ends_of_the_interval_count() {
    let sphere = Sphere::new(v(0, 0, -1), Fixed::from_ratio(1, 2), grey());
    let ray = Ray::new(v(0, 0, 0), v(0, 0, -1));
    let half = Fixed::from_ratio(1, 2);
    assert_eq!(sphere.hit(&ray, half, half).unwrap().t, half);
}

#[test]
fn no_hit_without_a_real_root() {
    let sphere = Sphere::new(v(0, 0, -1), Fixed::from_ratio(1, 2), grey());
    let ray = Ray::new(v(0, 0, 0), v(0, 1, 0));
    assert!(sphere.hit(&ray, Fixed::zero(), Fixed::max_value()).is_none());
    let away = Ray::new(v(0, 0, 0), v(0, 0, 1));
    assert!(sphere.hit(&away, Fixed::zero(), Fixed::max_value()).is_none());
}

#[test]
fn a_direction_that_is_not_of_length_one_scales_the_parameter() {
    let sphere = Sphere::new(v(0, 0, -10), Fixed::from_int(2), grey());
    let ray = Ray::new(v(0, 0, 0), v(0, 0, -4));
    let hit = sphere.hit(&ray, Fixed::zero(), Fixed::max_value()).unwrap();
    assert_eq!(hit.t, Fixed::from_int(2));
    assert_eq!(hit.p, v(0, 0, -8));
    assert_eq!(hit.normal, v(0, 0, 1));
}

#[test]
fn the_normal_is_turned_against_the_ray() {
    let toward = Ray::new(v(0, 0, 0), v(0, 0, -1));
    assert_eq!(HitRecord::set_face_normal(&toward, v(0, 0, 1)), (v(0, 0, 1), true));
    assert_eq!(HitRecord::set_face_normal(&toward, v(0, 0, -1)), (v(0, 0, 1), false));
    let across = Ray::new(v(0, 0, 0), v(1, 0, 0));
    assert_eq!(HitRecord::set_face_normal(&across, v(0, 1, 0)), (v(0, -1, 0), false));
    for (d, n) in [(v(1, 2, 3), v(-1, 0, 2)), (v(1, 2, 3), v(-3, 0, 0)), (v(0, -1, 1), v(5, 5, 5))]
    {
        let r = Ray::new(v(0, 0, 0), d);
        let (normal, front) = HitRecord::set_face_normal(&r, n);
        assert_eq!(front, d.dot(n).lt(Fixed::zero()));
        assert!(d.dot(normal).le(Fixed::zero()));
    }
}

#[test]
fn a_hit_record_keeps_its_fields() {
    let rec = HitRecord::new(v(1, 2, 3), v(0, 1, 0), Fixed::from_int(7), true, glass());
    assert_eq!(rec.p, v(1, 2, 3));
    assert_eq!(rec.normal, v(0, 1, 0));
    assert_eq!(rec.t, Fixed::from_int(7));
    assert!(rec.front_face);
    assert_eq!(rec.material, glass());
}

#[test]
fn the_bounding_box_spans_the_radius_each_way() {
    let sphere = Sphere::new(v(1, 2, 3), Fixed::from_ratio(1, 2), grey());
    let b = sphere.aabb();
    let h = Fixed::from_ratio(1, 2);
    assert_eq!(b.min, v(1, 2, 3) - Vec3::new(h, h, h));
    assert_eq!(b.max, v(1, 2, 3) + Vec3::new(h, h, h));
}

#[test]
fn the_node_index_is_kept() {
    let mut sphere = Sphere::new(v(1, 2, 3), Fixed::one(), grey());
    assert_eq!(sphere.bh_node_index(), 0);
    sphere.set_bh_node_index(17);
    assert_eq!(sphere.bh_node_index(), 17);
    assert_eq!(sphere.center, v(1, 2, 3));
    assert_eq!(sphere.radius, Fixed::one());
}

#[test]
fn the_nearest_of_several_spheres_is_hit() {
    let world = vec![
        Sphere::new(v(0, 0, -10), Fixed::one(), grey()),
        Sphere::new(v(0, 0, -4), Fixed::one(), glass()),
        Sphere::new(v(0, 0, -7), Fixed::one(), grey()),
        Sphere::new(v(5, 0, 0), Fixed::one(), grey()),
    ];
    let ray = Ray::new(v(0, 0, 0), v(0, 0, -1));
    let hit = hit_world(&world, &ray, Fixed::zero(), Fixed::max_value()).unwrap();
    assert_eq!(hit.t, Fixed::from_int(3));
    assert_eq!(hit.material, glass());
    let later = hit_world(&world, &ray, Fixed::from_ratio(7, 2), Fixed::max_value()).unwrap();
    assert_eq!(later.t, Fixed::from_int(5));
    assert!(!later.front_face);
    let none = hit_world(&world, &ray, Fixed::from_int(12), Fixed::max_value());
    assert!(none.is_none());
    assert!(hit_world(&Vec::new(), &ray, Fixed::zero(), Fixed::max_value()).is_none());
}

#[test]
fn of_two_hits_at_one_parameter_the_later_sphere_is_kept() {
    let world = vec![
        Sphere::new(v(0, 0, -4), Fixed::one(), grey()),
        Sphere::new(v(0, 0, -4), Fixed::one(), glass()),
    ];
    let ray = Ray::new(v(0, 0, 0), v(0, 0, -1));
    let hit = hit_world(&world, &ray, Fixed::zero(), Fixed::max_value()).unwrap();
    assert_eq!(hit.t, Fixed::from_int(3));
    assert_eq!(hit.material, glass());
}

#[test]
fn candidates_that_hold_every_sphere_hit_give_the_same_nearest_hit() {
    let world = vec![
        Sphere::new(v(0, 0, -10), Fixed::one(), grey()),
        Sphere::new(v(0, 3, -4), Fixed::one(), grey()),
        Sphere::new(v(0, 0, -4), Fixed::one(), glass()),
        Sphere::new(v(5, 0, 0), Fixed::one(), grey()),
    ];
    let candidates = vec![world[2], world[0]];
    let ray = Ray::new(v(0, 0, 0), v(0, 0, -1));
    let all = hit_world(&world, &ray, Fixed::zero(), Fixed::max_value());
    let some = hit_world(&candidates, &ray, Fixed::zero(), Fixed::max_value());
    assert_eq!(all, some);
    let miss = Ray::new(v(0, 0, 0), v(0, -1, 0));
    let no_candidates: Vec<Sphere> = Vec::new();
    assert_eq!(
        hit_world(&world, &miss, Fixed::zero(), Fixed::max_value()),
        hit_world(&no_candidates, &miss, Fixed::zero(), Fixed::max_value())
    );
}

#[test]
fn a_sphere_without_radius_is_hit_at_its_centre_with_no_normal() {
    let dot = Sphere::new(v(0, 0, -1), Fixed::zero(), grey());
    let ray = Ray::new(v(0, 0, 0), v(0, 0, -1));
    let hit = dot.hit(&ray, Fixed::zero(), Fixed::max_value()).unwrap();
    assert_eq!(hit.t, Fixed::one());
    assert_eq!(hit.p, v(0, 0, -1));
    assert_eq!(hit.normal, v(0, 0, 0));
    assert!(!hit.front_face);
    let beside = Ray::new(v(0, 1, 0), v(0, 0, -1));
    assert!(dot.hit(&beside, Fixed::zero(), Fixed::max_value()).is_none());
}

#[test]
fn a_ray_without_direction_hits_nothing() {
    let sphere = Sphere::new(v(0, 0, -1), Fixed::from_ratio(1, 2), grey());
    let still = Ray::new(v(0, 0, 0), v(0, 0, 0));
    assert!(sphere.hit(&still, Fixed::zero(), Fixed::max_value()).is_none());
    assert!(sphere.hit(&still, Fixed::max_value().neg(), Fixed::max_value()).is_none());
    let inside = Ray::new(v(0, 0, -1), v(0, 0, 0));
    assert!(sphere.hit(&inside, Fixed::zero(), Fixed::max_value()).is_none());
    assert_eq!(still.dir_inv, Vec3::new(Fixed::max_value(), Fixed::max_value(), Fixed::max_value()));
}

fn raw(x: i64, y: i64, z: i64) -> Vec3 {
    Vec3::new(Fixed::from_raw(x), Fixed::from_raw(y), Fixed::from_raw(z))
}

fn as_real(a: Fixed) -> f64 {
    a.raw() as f64 / 4294967296.0
}

#[test]
fn a_short_direction_hits_where_a_long_one_does() {
    let sphere = Sphere::new(v(0, 0, -1), Fixed::from_ratio(1, 2), grey());
    let ray = Ray::new(v(0, 0, 0), raw(0, 0, -92681));
    let hit = sphere.hit(&ray, Fixed::zero(), Fixed::max_value()).unwrap();
    assert_eq!(hit.t.raw(), 99517398785671);
    assert!((as_real(hit.t) - 0.5 * 4294967296.0 / 92681.0).abs() < 1e-6);
    assert_eq!(hit.p, raw(0, 0, -2147483648));
    assert_eq!(hit.normal, v(0, 0, 1));
    assert!(hit.front_face);

    let tiny = Ray::new(v(0, 0, 0), raw(3, 0, -4));
    let aside = Sphere::new(
        Vec3::new(Fixed::from_ratio(3, 10), Fixed::zero(), Fixed::from_ratio(-4, 10)),
        Fixed::from_ratio(1, 4),
        grey(),
    );
    let seen = aside.hit(&tiny, Fixed::zero(), Fixed::max_value()).unwrap();
    assert!((as_real(seen.t) - 0.25 * 4294967296.0 / 5.0).abs() < 1.0);
    assert!((as_real(seen.p.x()) - 0.15).abs() < 1e-6);
    assert!((as_real(seen.p.z()) + 0.2).abs() < 1e-6);
    assert!((as_real(seen.normal.length()) - 1.0).abs() < 1e-6);
}

#[test]
fn a_large_sphere_far_away_is_hit_where_it_lies() {
    let sphere = Sphere::new(v(0, 0, -100000), Fixed::from_int(50000), grey());
    let ray = Ray::new(v(0, 0, 0), v(0, 0, -1));
    let hit = sphere.hit(&ray, Fixed::zero(), Fixed::max_value()).unwrap();
    assert_eq!(hit.t, Fixed::from_int(50000));
    assert_eq!(hit.p, v(0, 0, -50000));
    assert_eq!(hit.normal, v(0, 0, 1));
    assert!(hit.front_face);

    let aside = Sphere::new(v(30000, 40000, 0), Fixed::from_int(10000), grey());
    let oblique = Ray::new(v(0, 0, 0), v(3, 4, 0));
    let seen = aside.hit(&oblique, Fixed::zero(), Fixed::max_value()).unwrap();
    assert_eq!(seen.t.raw(), 34359738408000);
    assert!((as_real(seen.t) - 8000.0).abs() < 1e-4);
    assert!((as_real(seen.p.x()) - 24000.0).abs() < 1e-3);
    assert!((as_real(seen.p.y()) - 32000.0).abs() < 1e-3);
    assert!((as_real(seen.normal.length()) - 1.0).abs() < 1e-6);
    let ground = Sphere::new(v(0, -1000, 0), Fixed::from_int(1000), grey());
    let down = Ray::new(v(13, 2, 3), v(0, -7, 0));
    let landed = ground.hit(&down, Fixed::from_ratio(1, 1000), Fixed::max_value()).unwrap();
    assert!((as_real(landed.p.y()) - (1000.0 - (1000000.0f64 - 178.0).sqrt()).abs() * -1.0).abs() < 1e-5);
    assert!((as_real(landed.normal.length()) - 1.0).abs() < 1e-6);
}

#[test]
fn a_hit_point_lies_on_the_sphere_for_directions_of_any_length() {
    let sphere = Sphere::new(v(1, -2, -7), Fixed::from_int(3), grey());
    for k in [0u32, 5, 14, 23, 31, 40, 50, 58] {
        for (x, y, z) in [(1i64, -2i64, -7i64), (2, -3, -9), (1, -1, -6), (0, -1, -3)] {
            let ray = Ray::new(v(0, 0, 0), raw(x << k, y << k, z << k));
            let hit = sphere.hit(&ray, Fixed::zero(), Fixed::max_value()).unwrap();
            let off = (hit.p - sphere.center).length();
            assert!((as_real(off) - 3.0).abs() < 1e-6);
            assert!((as_real(hit.normal.length()) - 1.0).abs() < 1e-6);
            assert!(hit.front_face);
        }
    }
}

#[test]
fn the_hit_point_is_right_where_the_parameter_is_coarse_or_out_of_range() {
    let sphere = Sphere::new(v(0, 0, -5), Fixed::from_ratio(1, 2), grey());
    let shortest = Ray::new(v(0, 0, 0), raw(0, 0, -1));
    let far = sphere.hit(&shortest, Fixed::zero(), Fixed::max_value()).unwrap();
    assert_eq!(far.t, Fixed::max_value());
    assert_eq!(far.p, Vec3::new(Fixed::zero(), Fixed::zero(), Fixed::from_ratio(-9, 2)));
    assert_eq!(far.normal, v(0, 0, 1));
    assert!(far.front_face);

    let longest = Ray::new(v(0, 0, 0), v(0, 0, -(1 << 30)));
    let near = sphere.hit(&longest, Fixed::zero(), Fixed::max_value()).unwrap();
    assert_eq!(near.t, Fixed::from_raw(18));
    assert_eq!(near.p, Vec3::new(Fixed::zero(), Fixed::zero(), Fixed::from_ratio(-9, 2)));
    assert_eq!(near.normal, v(0, 0, 1));

    let aside = Sphere::new(v(3, 0, -4), Fixed::one(), grey());
    let long = Ray::new(v(0, 0, 0), v(3 << 20, 0, -(4 << 20)));
    let seen = aside.hit(&long, Fixed::zero(), Fixed::max_value()).unwrap();
    assert_eq!(seen.t, Fixed::from_raw(3276));
    assert_eq!(seen.p, raw(10307921520, 0, -13743895360));
    assert!((as_real(seen.p.x()) - 2.4).abs() < 1e-8);
    assert!((as_real(seen.p.z()) + 3.2).abs() < 1e-8);
    assert!((as_real(seen.normal.length()) - 1.0).abs() < 1e-8);
}
