use raytracer::camera::Camera;
use raytracer::fixed::Fixed;
use raytracer::ray::Ray;
use raytracer::trig::{cos, sin, tan, PI_RAW};
use raytracer::utils::deg_2_rad;
use raytracer::vec3::Vec3;

fn v(x: i32, y: i32, z: i32) -> Vec3 {
    Vec3::new(Fixed::from_int(x), Fixed::from_int(y), Fixed::from_int(z))
}

fn as_real(a: Fixed) -> f64 {
    a.raw() as f64 / 4294967296.0
}

fn of_real(x: f64) -> Fixed {
    Fixed::from_raw((x * 4294967296.0).round() as i64)
}

fn close(a: Vec3, x: f64, y: f64, z: f64) -> bool {
    (as_real(a.x()) - x).abs() < 1e-6
        && (as_real(a.y()) - y).abs() < 1e-6
        && (as_real(a.z()) - z).abs() < 1e-6
}

#[test]
fn degrees_to_radians() {
    assert_eq!(deg_2_rad(Fixed::from_int(180)).raw(), PI_RAW);
    assert_eq!(deg_2_rad(Fixed::zero()), Fixed::zero());
    assert!((as_real(deg_2_rad(Fixed::from_int(90))) - std::f64::consts::FRAC_PI_2).abs() < 1e-9);
    assert!((as_real(deg_2_rad(Fixed::from_int(-20))) + 20.0f64.to_radians()).abs() < 1e-9);
}

#[test]
fn sine_cosine_and_tangent_follow_the_real_ones() {
    assert_eq!(sin(Fixed::zero()), Fixed::zero());
    assert_eq!(cos(Fixed::zero()), Fixed::one());
    assert_eq!(tan(Fixed::zero()), Fixed::zero());
    assert_eq!(tan(deg_2_rad(Fixed::from_int(45))).raw(), 4294967294);
    for tenth_of_degree in 0..=890 {
        let x = (tenth_of_degree as f64 / 10.0).to_radians();
        assert!((as_real(sin(of_real(x))) - x.sin()).abs() < 1e-8);
        assert!((as_real(cos(of_real(x))) - x.cos()).abs() < 1e-8);
        assert!((as_real(tan(of_real(x))) - x.tan()).abs() < 1e-8 * (1.0 + x.tan() * x.tan()));
    }
}

#[test]
fn a_camera_looking_down_the_z_axis() {
    let cam = Camera::new(
        v(0, 0, 0),
        v(0, 0, -1),
        v(0, 1, 0),
        Fixed::from_int(2),
        Fixed::from_int(90),
        Fixed::zero(),
        Fixed::one(),
    );
    let half = Fixed::from_ratio(1, 2);
    let centre = cam.get_ray_from(half, half, v(0, 0, 0));
    assert_eq!(centre, Ray::new(v(0, 0, 0), v(0, 0, -1)));
    let corner = cam.get_ray_from(Fixed::zero(), Fixed::zero(), v(0, 0, 0));
    assert_eq!(corner.origin(), v(0, 0, 0));
    assert!(close(corner.dir(), -2.0, -1.0, -1.0));
    let top_right = cam.get_ray_from(Fixed::one(), Fixed::one(), v(0, 0, 0));
    assert!(close(top_right.dir(), 2.0, 1.0, -1.0));
}

#[test]
fn a_camera_with_a_narrow_field_of_view_off_the_axes() {
    let cam = Camera::new(
        v(13, 2, 3),
        v(0, 0, 0),
        v(0, 1, 0),
        Fixed::from_ratio(16, 9),
        Fixed::from_int(20),
        Fixed::zero(),
        Fixed::from_int(10),
    );
    let half = Fixed::from_ratio(1, 2);
    let centre = cam.get_ray_from(half, half, v(0, 0, 0));
    assert_eq!(centre.origin(), v(13, 2, 3));
    let len = 182.0f64.sqrt();
    assert!(close(centre.dir(), -130.0 / len, -20.0 / len, -30.0 / len));
    let height = 2.0 * 10.0f64.to_radians().tan() * 10.0;
    let top = cam.get_ray_from(half, Fixed::one(), v(0, 0, 0));
    let rise = top.dir() - centre.dir();
    assert!((as_real(rise.length()) - height / 2.0).abs() < 1e-6);
    let right = cam.get_ray_from(Fixed::one(), half, v(0, 0, 0));
    let run = right.dir() - centre.dir();
    assert!((as_real(run.length()) - height * 16.0 / 9.0 / 2.0).abs() < 1e-6);
    assert_eq!(run.y(), Fixed::zero());
}

#[test]
fn without_an_aperture_every_ray_starts_at_the_camera() {
    let cam = Camera::new(
        v(0, 0, 0),
        v(0, 0, -1),
        v(0, 1, 0),
        Fixed::from_int(2),
        Fixed::from_int(90),
        Fixed::zero(),
        Fixed::one(),
    );
    let s = Fixed::from_ratio(1, 3);
    let t = Fixed::from_ratio(3, 4);
    let pinhole = cam.get_ray_from(s, t, v(0, 0, 0));
    for _ in 0..100 {
        assert_eq!(cam.get_ray(s, t), pinhole);
    }
    assert_eq!(cam.get_ray_from(s, t, Vec3::new(Fixed::from_ratio(1, 2), Fixed::from_ratio(-1, 2), Fixed::zero())), pinhole);
}

#[test]
fn a_lens_shifts_the_origin_and_keeps_the_target() {
    let cam = Camera::new(
        v(0, 0, 0),
        v(0, 0, -1),
        v(0, 1, 0),
        Fixed::one(),
        Fixed::from_int(90),
        Fixed::from_int(2),
        Fixed::from_int(4),
    );
    let half = Fixed::from_ratio(1, 2);
    let lens = Vec3::new(half, Fixed::from_ratio(-1, 4), Fixed::zero());
    let ray = cam.get_ray_from(half, half, lens);
    assert_eq!(ray.origin(), Vec3::new(half, Fixed::from_ratio(-1, 4), Fixed::zero()));
    assert_eq!(ray.origin() + ray.dir(), v(0, 0, -4));
    for _ in 0..100 {
        let r = cam.get_ray(half, half);
        assert_eq!(r.origin().z(), Fixed::zero());
        assert!(r.origin().length_squared().lt(Fixed::one()));
        assert_eq!(r.origin() + r.dir(), v(0, 0, -4));
    }
}

#[test]
fn a_camera_close_to_what_it_looks_at_has_an_orthonormal_basis() {
    let near = Vec3::new(Fixed::zero(), Fixed::zero(), Fixed::from_raw(92681));
    let cam = Camera::new(
        v(0, 0, 0),
        near,
        v(0, 1, 0),
        Fixed::one(),
        Fixed::from_int(90),
        Fixed::zero(),
        Fixed::one(),
    );
    let far = Camera::new(
        v(0, 0, 0),
        v(0, 0, 5),
        v(0, 1, 0),
        Fixed::one(),
        Fixed::from_int(90),
        Fixed::zero(),
        Fixed::one(),
    );
    assert_eq!(cam, far);
    let half = Fixed::from_ratio(1, 2);
    assert_eq!(cam.get_ray_from(half, half, v(0, 0, 0)), Ray::new(v(0, 0, 0), v(0, 0, 1)));
}

#[test]
fn the_length_of_the_up_vector_does_not_matter() {
    let with_up = |vup: Vec3| {
        Camera::new(
            v(13, 2, 3),
            v(0, 0, 0),
            vup,
            Fixed::from_ratio(16, 9),
            Fixed::from_int(20),
            Fixed::from_ratio(1, 10),
            Fixed::from_int(10),
        )
    };
    let usual = with_up(v(0, 1, 0));
    let shortest = Vec3::new(Fixed::zero(), Fixed::from_raw(1), Fixed::zero());
    let short = Vec3::new(Fixed::zero(), Fixed::from_raw(92681), Fixed::zero());
    assert_eq!(with_up(shortest), usual);
    assert_eq!(with_up(short), usual);
    assert_eq!(with_up(v(0, 1000000, 0)), usual);
    assert_eq!(with_up(Vec3::new(Fixed::zero(), Fixed::max_value(), Fixed::zero())), usual);
}
