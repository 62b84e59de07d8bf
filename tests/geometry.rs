use boids::geometry::{ceil_sqrt_exec, clamp_length_max, floor_div, trunc_div_exec};
use boids::{Ratio, Vec2};

#[test]
fn clamp_leaves_short_velocity_unchanged() {
    assert_eq!(clamp_length_max(3, 4, 5), Vec2::new(3, 4));
    assert_eq!(clamp_length_max(-3, 4, 10), Vec2::new(-3, 4));
    assert_eq!(clamp_length_max(0, 0, 0), Vec2::new(0, 0));
}

#[test]
fn clamp_shortens_long_velocity_to_max_speed() {
    assert_eq!(clamp_length_max(6, 8, 5), Vec2::new(3, 4));
    assert_eq!(clamp_length_max(-30, 40, 5), Vec2::new(-3, 4));
    assert_eq!(clamp_length_max(0, -100, 7), Vec2::new(0, -7));
}

#[test]
fn clamp_rounds_toward_zero_and_stays_under_max() {
    // |(1, 2)|² = 5, rounded-up root 3: (1 * 2 / 3, 2 * 2 / 3) = (0, 1).
    let v = clamp_length_max(1, 2, 2);
    assert_eq!(v, Vec2::new(0, 1));
    let v = clamp_length_max(1000, 999, 100);
    let l2 = (v.x as i64) * (v.x as i64) + (v.y as i64) * (v.y as i64);
    assert!(l2 <= 100 * 100);
    assert!(v.x > 0 && v.y > 0);
}

#[test]
fn clamp_handles_very_long_velocity() {
    let big: i128 = 1 << 100;
    let v = clamp_length_max(big, 0, i32::MAX);
    assert_eq!(v, Vec2::new(i32::MAX, 0));
    let v = clamp_length_max(-big, -big, 100);
    assert_eq!(v, Vec2::new(-70, -70));
}

#[test]
fn ceil_sqrt_values() {
    assert_eq!(ceil_sqrt_exec(0), 0);
    assert_eq!(ceil_sqrt_exec(1), 1);
    assert_eq!(ceil_sqrt_exec(10), 4);
    assert_eq!(ceil_sqrt_exec(16), 4);
    assert_eq!(ceil_sqrt_exec(17), 5);
}

#[test]
fn floor_and_trunc_division() {
    assert_eq!(floor_div(7, 2), 3);
    assert_eq!(floor_div(-7, 2), -4);
    assert_eq!(floor_div(-8, 2), -4);
    assert_eq!(trunc_div_exec(-7, 2), -3);
    assert_eq!(trunc_div_exec(7, 2), 3);
}

#[test]
fn ratio_applies_and_rounds_toward_zero() {
    assert_eq!(Ratio::new(1, 2).apply_exec(-3), -1);
    assert_eq!(Ratio::new(1, 2).apply_exec(3), 1);
    assert_eq!(Ratio::new(3, 4).apply_exec(8), 6);
    assert_eq!(Ratio::new(-1, 1).apply_exec(5), -5);
}

#[test]
fn closeness_is_inclusive() {
    assert!(Vec2::are_closer_than(5, Vec2::new(0, 0), Vec2::new(3, 4)));
    assert!(!Vec2::are_closer_than(4, Vec2::new(0, 0), Vec2::new(3, 4)));
    assert!(Vec2::are_closer_than(0, Vec2::new(2, 2), Vec2::new(2, 2)));
    assert_eq!(Vec2::new(1, 1).distance_squared(Vec2::new(-2, 5)), 25);
}

#[test]
fn clamp_accepts_the_largest_speed() {
    assert_eq!(clamp_length_max(3, 4, i32::MAX), Vec2::new(3, 4));
    assert_eq!(clamp_length_max(i32::MAX as i128, i32::MAX as i128, i32::MAX).x, 1518500249);
}
