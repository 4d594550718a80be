use raytracer::fixed::{Fixed, MAX_RAW, ONE_RAW};
use std::ops::Neg;

#[test]
fn whole_numbers_and_fractions_are_exact() {
    assert_eq!(Fixed::from_int(3).raw(), 3 * ONE_RAW);
    assert_eq!(Fixed::from_int(-7).raw(), -7 * ONE_RAW);
    assert_eq!(Fixed::from_ratio(1, 2).raw(), ONE_RAW / 2);
    assert_eq!(Fixed::from_ratio(-1, 2).raw(), -(ONE_RAW / 2));
    assert_eq!(Fixed::from_ratio(7, 10).raw(), 3006477107);
    assert_eq!(Fixed::zero().raw(), 0);
    assert_eq!(Fixed::one().raw(), ONE_RAW);
    assert_eq!(Fixed::max_value().raw(), MAX_RAW);
}

#[test]
fn fractions_round_toward_zero() {
    assert_eq!(Fixed::from_ratio(1, 3).raw(), 1431655765);
    assert_eq!(Fixed::from_ratio(-1, 3).raw(), -1431655765);
    assert_eq!(Fixed::from_ratio(1, -3).raw(), -1431655765);
    assert_eq!(Fixed::from_ratio(-1, -3).raw(), 1431655765);
}

#[test]
fn the_smallest_raw_value_is_brought_into_the_range() {
    assert_eq!(Fixed::from_raw(i64::MIN).raw(), -MAX_RAW);
    assert_eq!(Fixed::from_int(i32::MIN).raw(), -MAX_RAW);
    assert_eq!(Fixed::from_raw(-5).raw(), -5);
}

#[test]
fn whole_numbers_too_large_become_the_largest_number() {
    assert_eq!(Fixed::from_u32(5).raw(), 5 * ONE_RAW);
    assert_eq!(Fixed::from_u32(u32::MAX), Fixed::max_value());
}

#[test]
fn sums_and_differences_stick_at_the_ends() {
    assert_eq!(Fixed::from_int(2) + Fixed::from_int(3), Fixed::from_int(5));
    assert_eq!(Fixed::from_int(2) - Fixed::from_int(3), Fixed::from_int(-1));
    assert_eq!(Fixed::max_value() + Fixed::one(), Fixed::max_value());
    assert_eq!(Fixed::max_value().neg() - Fixed::one(), Fixed::max_value().neg());
}

#[test]
fn products_round_toward_zero_and_stick_at_the_ends() {
    let half = Fixed::from_ratio(1, 2);
    assert_eq!(Fixed::from_int(6) * half, Fixed::from_int(3));
    assert_eq!(Fixed::from_raw(3) * half, Fixed::from_raw(1));
    assert_eq!(Fixed::from_raw(-3) * half, Fixed::from_raw(-1));
    assert_eq!(Fixed::max_value() * Fixed::from_int(2), Fixed::max_value());
    assert_eq!(Fixed::max_value() * Fixed::from_int(-2), Fixed::max_value().neg());
    assert_eq!(Fixed::from_int(-4) * Fixed::from_int(-4), Fixed::from_int(16));
}

#[test]
fn quotients_round_toward_zero() {
    assert_eq!(Fixed::from_int(1) / Fixed::from_int(4), Fixed::from_ratio(1, 4));
    assert_eq!(Fixed::from_int(-9) / Fixed::from_int(2), Fixed::from_ratio(-9, 2));
    assert_eq!((Fixed::from_int(1) / Fixed::from_int(3)).raw(), 1431655765);
    assert_eq!((Fixed::from_int(-1) / Fixed::from_int(3)).raw(), -1431655765);
    assert_eq!(Fixed::from_int(5) / Fixed::from_int(-1), Fixed::from_int(-5));
}

#[test]
fn a_division_by_zero_sticks_at_the_end_of_the_range() {
    assert_eq!(Fixed::one() / Fixed::zero(), Fixed::max_value());
    assert_eq!(Fixed::one().neg() / Fixed::zero(), Fixed::max_value().neg());
    assert_eq!(Fixed::zero() / Fixed::zero(), Fixed::zero());
}

#[test]
fn square_roots_round_down() {
    assert_eq!(Fixed::from_int(4).sqrt(), Fixed::from_int(2));
    assert_eq!(Fixed::from_ratio(1, 4).sqrt(), Fixed::from_ratio(1, 2));
    assert_eq!(Fixed::from_int(2).sqrt().raw(), 6074000999);
    assert_eq!(Fixed::zero().sqrt(), Fixed::zero());
    assert_eq!(Fixed::from_raw(1).sqrt().raw(), 65536);
}

#[test]
fn the_square_root_of_a_negative_number_is_zero() {
    assert_eq!(Fixed::from_int(-1).sqrt(), Fixed::zero());
}

#[test]
fn the_square_root_of_the_largest_number_is_found() {
    let r = Fixed::max_value().sqrt().raw() as i128;
    let n = (MAX_RAW as i128) * (ONE_RAW as i128);
    assert!(r * r <= n);
    assert!(n < (r + 1) * (r + 1));
}

#[test]
fn negation_and_magnitude() {
    assert_eq!(Fixed::from_int(3).neg(), Fixed::from_int(-3));
    assert_eq!(Fixed::from_int(-3).abs(), Fixed::from_int(3));
    assert_eq!(Fixed::from_int(3).abs(), Fixed::from_int(3));
    assert_eq!(Fixed::max_value().neg().neg(), Fixed::max_value());
}

#[test]
fn the_smaller_of_two_and_the_clamp_to_the_unit_interval() {
    assert_eq!(Fixed::from_int(3).min(Fixed::from_int(2)), Fixed::from_int(2));
    assert_eq!(Fixed::from_int(-3).min(Fixed::from_int(2)), Fixed::from_int(-3));
    assert_eq!(Fixed::from_int(3).clamp_unit(), Fixed::one());
    assert_eq!(Fixed::from_int(-3).clamp_unit(), Fixed::zero());
    assert_eq!(Fixed::from_ratio(1, 3).clamp_unit(), Fixed::from_ratio(1, 3));
}

#[test]
fn comparisons_go_by_the_value() {
    let a = Fixed::from_int(-1);
    let b = Fixed::from_ratio(1, 2);
    assert!(a.lt(b) && a.le(b) && b.gt(a) && b.ge(a));
    assert!(!b.lt(a) && !b.le(a) && !a.gt(b) && !a.ge(b));
    assert!(a.le(a) && a.ge(a) && !a.lt(a) && !a.gt(a));
}

#[test]
fn the_whole_part_rounds_toward_zero() {
    assert_eq!(Fixed::from_ratio(7, 2).trunc(), 3);
    assert_eq!(Fixed::from_ratio(-7, 2).trunc(), -3);
    assert_eq!(Fixed::from_int(256).trunc(), 256);
    assert_eq!(Fixed::from_ratio(1, 2).trunc(), 0);
}
