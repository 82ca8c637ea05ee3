use stroke_recognizer::geometry::{distance, distance_squared, integer_sqrt, lerp, Point};

fn pt(x: i32, y: i32) -> Point {
    Point { x, y }
}

#[test]
fn squared_distance_of_a_3_4_5_triangle() {
    assert_eq!(distance_squared(pt(0, 0), pt(3, 4)), 25);
    assert_eq!(distance_squared(pt(3, 4), pt(0, 0)), 25);
}

#[test]
fn squared_distance_between_the_far_corners() {
    let a = pt(i32::MIN, i32::MIN);
    let b = pt(i32::MAX, i32::MAX);
    let side: u128 = (1u128 << 32) - 1;
    assert_eq!(distance_squared(a, b), 2 * side * side);
}

#[test]
fn integer_sqrt_rounds_down() {
    assert_eq!(integer_sqrt(0), 0);
    assert_eq!(integer_sqrt(1), 1);
    assert_eq!(integer_sqrt(2), 1);
    assert_eq!(integer_sqrt(3), 1);
    assert_eq!(integer_sqrt(4), 2);
    assert_eq!(integer_sqrt(24), 4);
    assert_eq!(integer_sqrt(25), 5);
    assert_eq!(integer_sqrt(26), 5);
    assert_eq!(integer_sqrt(1_000_000), 1000);
    assert_eq!(integer_sqrt(999_999), 999);
}

#[test]
fn integer_sqrt_of_the_largest_value() {
    assert_eq!(integer_sqrt(u128::MAX), u64::MAX);
    let r: u128 = 1 << 63;
    assert_eq!(integer_sqrt(r * r), 1 << 63);
    assert_eq!(integer_sqrt(r * r - 1), (1 << 63) - 1);
}

#[test]
fn distance_rounds_down() {
    assert_eq!(distance(pt(0, 0), pt(3, 4)), 5);
    assert_eq!(distance(pt(0, 0), pt(1, 1)), 1);
    assert_eq!(distance(pt(0, 0), pt(2, 2)), 2);
    assert_eq!(distance(pt(-5, 7), pt(-5, 7)), 0);
    assert_eq!(distance(pt(10, 0), pt(-10, 0)), 20);
}

#[test]
fn lerp_at_the_ends_and_in_the_middle() {
    assert_eq!(lerp(pt(0, 0), pt(10, 20), 0, 4), pt(0, 0));
    assert_eq!(lerp(pt(0, 0), pt(10, 20), 4, 4), pt(10, 20));
    assert_eq!(lerp(pt(0, 0), pt(10, 20), 2, 4), pt(5, 10));
}

#[test]
fn lerp_rounds_toward_the_first_point() {
    assert_eq!(lerp(pt(0, 0), pt(10, 10), 1, 3), pt(3, 3));
    assert_eq!(lerp(pt(10, 10), pt(0, 0), 1, 3), pt(7, 7));
    assert_eq!(lerp(pt(0, 10), pt(10, 0), 2, 3), pt(6, 4));
}

#[test]
fn lerp_across_the_whole_range() {
    let a = pt(i32::MIN, i32::MAX);
    let b = pt(i32::MAX, i32::MIN);
    assert_eq!(lerp(a, b, u64::MAX, u64::MAX as u128), b);
    assert_eq!(lerp(a, b, 0, 1), a);
}
