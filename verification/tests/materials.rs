use raytracer::fixed::Fixed;
use raytracer::hittable::HitRecord;
use raytracer::material::{Dielectric, Lambertian, Material, Metal, Properties};
use raytracer::ray::Ray;
use raytracer::vec3::Vec3;
use std::ops::Neg;

fn v(x: i32, y: i32, z: i32) -> Vec3 {
    Vec3::new(Fixed::from_int(x), Fixed::from_int(y), Fixed::from_int(z))
}

fn tenths(x: i64, y: i64, z: i64) -> Vec3 {
    Vec3::new(Fixed::from_ratio(x, 10), Fixed::from_ratio(y, 10), Fixed::from_ratio(z, 10))
}

fn as_real(a: Fixed) -> f64 {
    a.raw() as f64 / 4294967296.0
}

fn record(material: Material) -> HitRecord {
    HitRecord::new(v(1, 2, 3), v(0, 1, 0), Fixed::from_int(4), true, material)
}

#[test]
fn a_diffuse_surface_scatters_along_the_normal_plus_the_unit_vector() {
    let l = Lambertian::new(tenths(8, 3, 3));
    let rec = record(Material::Lambertian(l));
    let (ray, attenuation) = l.scatter_with(rec, v(1, 0, 0));
    assert_eq!(attenuation, tenths(8, 3, 3));
    assert_eq!(ray, Some(Ray::new(v(1, 2, 3), v(1, 1, 0))));
}

#[test]
fn a_diffuse_surface_falls_back_to_the_normal() {
    let l = Lambertian::new(tenths(8, 3, 3));
    let rec = record(Material::Lambertian(l));
    let (ray, attenuation) = l.scatter_with(rec, v(0, -1, 0));
    assert_eq!(attenuation, tenths(8, 3, 3));
    assert_eq!(ray.unwrap().dir(), v(0, 1, 0));
    let almost = Vec3::new(Fixed::from_raw(42), Fixed::from_int(-1), Fixed::from_raw(-42));
    assert_eq!(l.scatter_with(rec, almost).0.unwrap().dir(), v(0, 1, 0));
    let off = Vec3::new(Fixed::from_raw(43), Fixed::from_int(-1), Fixed::zero());
    assert_eq!(
        l.scatter_with(rec, off).0.unwrap().dir(),
        Vec3::new(Fixed::from_raw(43), Fixed::zero(), Fixed::zero())
    );
}

#[test]
fn a_diffuse_surface_always_scatters_with_its_albedo() {
    let l = Lambertian::new(tenths(1, 2, 3));
    let rec = record(Material::Lambertian(l));
    let incoming = Ray::new(v(0, 5, 0), v(1, -1, 0));
    for _ in 0..200 {
        let (ray, attenuation) = l.scatter(&incoming, rec);
        assert_eq!(attenuation, tenths(1, 2, 3));
        let ray = ray.unwrap();
        assert_eq!(ray.origin(), v(1, 2, 3));
        assert!(ray.dir() != v(0, 0, 0));
        let (_, through_the_enum) = Material::Lambertian(l).scatter(&incoming, rec);
        assert_eq!(through_the_enum, tenths(1, 2, 3));
    }
}

#[test]
fn a_mirror_image() {
    assert_eq!(Metal::reflect(v(1, -1, 0), v(0, 1, 0)), v(1, 1, 0));
    assert_eq!(Metal::reflect(v(1, -1, 2), v(0, 0, -1)), v(1, -1, -2));
    assert_eq!(Dielectric::reflect(&v(1, -1, 0), &v(0, 1, 0)), v(1, 1, 0));
    assert_eq!(Dielectric::reflect(&v(3, 0, 0), &v(-1, 0, 0)), v(-3, 0, 0));
}

#[test]
fn a_fuzz_of_one_or_more_counts_as_one() {
    let rec = record(Material::Lambertian(Lambertian::new(v(0, 0, 0))));
    let incoming = Ray::new(v(0, 0, 0), v(0, -1, 0));
    let shift = v(0, 0, 1);
    let rough = Metal::new(tenths(5, 5, 5), Fixed::from_int(7));
    assert_eq!(rough.scatter_with(&incoming, rec, shift).0.unwrap().dir(), v(0, 1, 1));
    let exact = Metal::new(tenths(5, 5, 5), Fixed::one());
    assert_eq!(exact.scatter_with(&incoming, rec, shift).0.unwrap().dir(), v(0, 1, 1));
    let half = Metal::new(tenths(5, 5, 5), Fixed::from_ratio(1, 2));
    assert_eq!(
        half.scatter_with(&incoming, rec, shift).0.unwrap().dir(),
        Vec3::new(Fixed::zero(), Fixed::one(), Fixed::from_ratio(1, 2))
    );
}

#[test]
fn polished_metal_mirrors_the_unit_direction_exactly() {
    let m = Metal::new(tenths(7, 6, 5), Fixed::zero());
    let rec = record(Material::Metal(m));
    let incoming = Ray::new(v(0, 3, 3), v(1, -1, 0));
    let unit = v(1, -1, 0).unit_vector();
    let mirrored = Metal::reflect(unit, v(0, 1, 0));
    assert_eq!(mirrored, Vec3::new(unit.x(), unit.y().neg(), Fixed::zero()));
    for _ in 0..50 {
        let (ray, attenuation) = m.scatter(&incoming, rec);
        assert_eq!(attenuation, tenths(7, 6, 5));
        assert_eq!(ray, Some(Ray::new(v(1, 2, 3), mirrored)));
        let through_the_enum = Material::Metal(m).scatter(&incoming, rec);
        assert_eq!(through_the_enum, (Some(Ray::new(v(1, 2, 3), mirrored)), tenths(7, 6, 5)));
    }
    assert_eq!(m.scatter_with(&incoming, rec, v(1, 1, 1)).0.unwrap().dir(), mirrored);
}

#[test]
fn fuzzy_metal_stays_within_its_fuzz_of_the_mirror_image() {
    let m = Metal::new(tenths(7, 6, 5), Fixed::from_ratio(1, 4));
    let rec = record(Material::Metal(m));
    let incoming = Ray::new(v(0, 3, 3), v(0, -2, 0));
    for _ in 0..200 {
        let (ray, attenuation) = m.scatter(&incoming, rec);
        assert_eq!(attenuation, tenths(7, 6, 5));
        let off = ray.unwrap().dir() - v(0, 1, 0);
        assert!(as_real(off.length()) <= 0.25);
    }
}

#[test]
fn reflectance_by_schlick() {
    let glass = Fixed::from_ratio(3, 2);
    assert_eq!(Dielectric::reflectance(Fixed::one(), glass).raw(), 171798691);
    assert!((as_real(Dielectric::reflectance(Fixed::one(), glass)) - 0.04).abs() < 1e-8);
    assert_eq!(Dielectric::reflectance(Fixed::zero(), glass), Fixed::one());
    assert_eq!(Dielectric::reflectance(Fixed::one(), Fixed::one()), Fixed::zero());
    let at_sixty = as_real(Dielectric::reflectance(Fixed::from_ratio(1, 2), glass));
    assert!((at_sixty - (0.04 + 0.96 / 32.0)).abs() < 1e-8);
}

#[test]
fn refraction_by_snell() {
    let straight = Dielectric::refract(&v(0, 0, -1), &v(0, 0, 1), Fixed::from_ratio(2, 3));
    assert_eq!(straight, v(0, 0, -1));
    let uv = v(1, -1, 0).unit_vector();
    let bent = Dielectric::refract(&uv, &v(0, 1, 0), Fixed::from_ratio(2, 3));
    assert_eq!(bent.x().raw(), 2024666998);
    assert_eq!(bent.y().raw(), -3787805119);
    assert_eq!(bent.z().raw(), 0);
    let sine_in = (0.5f64).sqrt();
    assert!((as_real(bent.x()) - sine_in / 1.5).abs() < 1e-8);
}

#[test]
fn an_index_of_one_does_not_bend_the_ray() {
    let d = Dielectric::new(Fixed::one());
    let rec = HitRecord::new(v(0, 0, 0), v(0, 0, 1), Fixed::one(), true, Material::Dielectric(d));
    let incoming = Ray::new(v(0, 0, 5), v(0, 0, -3));
    let (ray, attenuation) = d.scatter_with(&incoming, rec, Fixed::from_ratio(1, 2));
    assert_eq!(attenuation, v(1, 1, 1));
    assert_eq!(ray, Some(Ray::new(v(0, 0, 0), v(0, 0, -1))));
    let back = HitRecord::new(v(0, 0, 0), v(0, 0, 1), Fixed::one(), false, Material::Dielectric(d));
    assert_eq!(d.scatter_with(&incoming, back, Fixed::from_ratio(1, 2)).0, ray);

    let oblique = Ray::new(v(0, 0, 5), v(1, 0, -1));
    let uv = v(1, 0, -1).unit_vector();
    let straight_on = d.scatter_with(&oblique, rec, Fixed::one()).0.unwrap().dir();
    assert!((as_real(straight_on.x()) - as_real(uv.x())).abs() < 1e-8);
    assert!((as_real(straight_on.y()) - as_real(uv.y())).abs() < 1e-8);
    assert!((as_real(straight_on.z()) - as_real(uv.z())).abs() < 1e-8);
}

#[test]
fn glass_reflects_for_a_low_draw_and_refracts_for_a_high_one() {
    let d = Dielectric::new(Fixed::from_ratio(3, 2));
    let rec = HitRecord::new(v(0, 0, 0), v(0, 0, 1), Fixed::one(), true, Material::Dielectric(d));
    let incoming = Ray::new(v(0, 0, 5), v(0, 0, -1));
    let reflected = d.scatter_with(&incoming, rec, Fixed::zero());
    assert_eq!(reflected, (Some(Ray::new(v(0, 0, 0), v(0, 0, 1))), v(1, 1, 1)));
    let refracted = d.scatter_with(&incoming, rec, Fixed::from_ratio(1, 2));
    assert_eq!(refracted, (Some(Ray::new(v(0, 0, 0), v(0, 0, -1))), v(1, 1, 1)));
    let at_the_share = d.scatter_with(&incoming, rec, Fixed::from_raw(171798691));
    assert_eq!(at_the_share.0.unwrap().dir(), v(0, 0, -1));
    let below_the_share = d.scatter_with(&incoming, rec, Fixed::from_raw(171798690));
    assert_eq!(below_the_share.0.unwrap().dir(), v(0, 0, 1));
}

#[test]
fn glass_reflects_all_where_it_cannot_refract() {
    let d = Dielectric::new(Fixed::from_ratio(3, 2));
    let inside = HitRecord::new(v(0, 0, 0), v(0, 1, 0), Fixed::one(), false, Material::Dielectric(d));
    let grazing = Ray::new(v(-5, 1, 0), v(5, -1, 0));
    let uv = v(5, -1, 0).unit_vector();
    let out = d.scatter_with(&grazing, inside, Fixed::max_value());
    assert_eq!(out.0.unwrap().dir(), Dielectric::reflect(&uv, &v(0, 1, 0)));
    assert_eq!(out.1, v(1, 1, 1));
}

#[test]
fn glass_always_scatters_and_loses_nothing() {
    let d = Dielectric::new(Fixed::from_ratio(3, 2));
    let rec = HitRecord::new(v(0, 0, 0), v(0, 0, 1), Fixed::one(), true, Material::Dielectric(d));
    let incoming = Ray::new(v(0, 0, 5), v(0, 0, -1));
    let mut reflected = 0;
    let mut refracted = 0;
    for _ in 0..2000 {
        let (ray, attenuation) = Material::Dielectric(d).scatter(&incoming, rec);
        assert_eq!(attenuation, v(1, 1, 1));
        let dir = ray.unwrap().dir();
        if dir == v(0, 0, 1) {
            reflected += 1;
        } else {
            assert_eq!(dir, v(0, 0, -1));
            refracted += 1;
        }
        let direct = d.scatter(&incoming, rec);
        assert_eq!(direct.1, v(1, 1, 1));
    }
    assert!(refracted > reflected);
    assert!(reflected > 0);
}

fn raw(x: i64, y: i64, z: i64) -> Vec3 {
    Vec3::new(Fixed::from_raw(x), Fixed::from_raw(y), Fixed::from_raw(z))
}

fn squared_length(a: Vec3) -> f64 {
    as_real(a.x()).powi(2) + as_real(a.y()).powi(2) + as_real(a.z()).powi(2)
}

#[test]
fn a_short_incoming_direction_scatters_like_a_long_one() {
    let d = Dielectric::new(Fixed::one());
    let rec = HitRecord::new(v(0, 0, 0), v(0, 0, 1), Fixed::one(), true, Material::Dielectric(d));
    let short = Ray::new(v(0, 0, 5), raw(0, 0, -92681));
    let long = Ray::new(v(0, 0, 5), v(0, 0, -3));
    for draw in [Fixed::zero(), Fixed::from_ratio(1, 2), Fixed::from_raw(4294967295)] {
        let out = d.scatter_with(&short, rec, draw);
        assert_eq!(out, d.scatter_with(&long, rec, draw));
        assert_eq!(out.0.unwrap().dir(), v(0, 0, -1));
    }

    let glass = Dielectric::new(Fixed::from_ratio(3, 2));
    let leaving = HitRecord::new(v(0, 0, 0), v(0, 1, 0), Fixed::one(), false, Material::Dielectric(glass));
    let oblique = Ray::new(v(0, 0, 0), raw(104857, -78643, 0));
    for draw in [Fixed::zero(), Fixed::from_ratio(1, 2), Fixed::from_raw(4294967295)] {
        let dir = glass.scatter_with(&oblique, leaving, draw).0.unwrap().dir();
        assert!((squared_length(dir) - 1.0).abs() < 1e-8);
    }

    let m = Metal::new(tenths(7, 6, 5), Fixed::zero());
    let mirror = HitRecord::new(v(0, 0, 0), v(0, 1, 0), Fixed::one(), true, Material::Metal(m));
    let dir = m.scatter_with(&Ray::new(v(0, 1, 0), raw(3, -4, 0)), mirror, v(0, 0, 0)).0.unwrap().dir();
    assert_eq!(dir, raw(2576980377, 3435973836, 0));
}
