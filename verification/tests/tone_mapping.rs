use raytracer::colours::write_colours;
use raytracer::fixed::Fixed;
use raytracer::vec3::Vec3;

fn v(x: i32, y: i32, z: i32) -> Vec3 {
    Vec3::new(Fixed::from_int(x), Fixed::from_int(y), Fixed::from_int(z))
}

#[test]
fn a_channel_is_averaged_gamma_corrected_and_scaled() {
    let c = Vec3::new(Fixed::from_ratio(1, 4), Fixed::from_ratio(1, 2), Fixed::zero());
    assert_eq!(write_colours(c, 1), [128, 181, 0]);
    assert_eq!(write_colours(v(1, 2, 4), 4), [128, 181, 255]);
    assert_eq!(write_colours(v(16, 32, 64), 64), [128, 181, 255]);
}

#[test]
fn what_is_too_bright_is_clamped() {
    assert_eq!(write_colours(v(1, 3, 1000), 1), [255, 255, 255]);
    assert_eq!(write_colours(v(64, 65, 6400), 64), [255, 255, 255]);
    let huge = Vec3::new(Fixed::max_value(), Fixed::max_value(), Fixed::max_value());
    assert_eq!(write_colours(huge, 1), [255, 255, 255]);
    assert_eq!(write_colours(huge, i32::MAX), [255, 255, 255]);
    let just_below = Vec3::new(Fixed::from_raw(4294967295), Fixed::one(), Fixed::from_raw(4294967297));
    assert_eq!(write_colours(just_below, 1), [255, 255, 255]);
}

#[test]
fn what_is_negative_is_black() {
    assert_eq!(write_colours(v(-1, -1000, 0), 1), [0, 0, 0]);
    let least = Fixed::from_raw(i64::MIN);
    assert_eq!(write_colours(Vec3::new(least, least, least), 3), [0, 0, 0]);
}

#[test]
fn brighter_never_gives_a_smaller_byte() {
    let mut last = 0u8;
    for k in 0..=300 {
        let c = Fixed::from_ratio(k, 256);
        let b = write_colours(Vec3::new(c, c, c), 1)[0];
        assert!(b >= last);
        last = b;
    }
    assert_eq!(last, 255);
}

#[test]
fn without_samples_a_sum_divides_as_by_zero() {
    assert_eq!(write_colours(v(1, 0, -1), 0), [255, 0, 0]);
}
