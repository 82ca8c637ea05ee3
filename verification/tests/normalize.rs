use stroke_recognizer::geometry::Point;
use stroke_recognizer::matcher::match_distance;
use stroke_recognizer::normalize::{get_centroid, scale_and_translate, NORMALIZED_EXTENT};

fn pt(x: i32, y: i32) -> Point {
    Point { x, y }
}

#[test]
fn centroid_of_no_points_is_the_origin() {
    assert_eq!(get_centroid(&Vec::new()), pt(0, 0));
}

#[test]
fn centroid_is_the_mean() {
    assert_eq!(get_centroid(&vec![pt(0, 0), pt(10, 0), pt(10, 10), pt(0, 10)]), pt(5, 5));
    assert_eq!(get_centroid(&vec![pt(7, -3)]), pt(7, -3));
}

#[test]
fn centroid_rounds_down() {
    assert_eq!(get_centroid(&vec![pt(0, 0), pt(1, 1)]), pt(0, 0));
    assert_eq!(get_centroid(&vec![pt(-1, -1), pt(0, 0)]), pt(-1, -1));
    assert_eq!(get_centroid(&vec![pt(-4, 4), pt(-3, 3), pt(-3, 3)]), pt(-4, 3));
}

#[test]
fn centroid_of_extreme_points() {
    assert_eq!(
        get_centroid(&vec![pt(i32::MAX, i32::MIN), pt(i32::MAX, i32::MIN)]),
        pt(i32::MAX, i32::MIN)
    );
}

#[test]
fn normalizing_nothing_leaves_nothing() {
    let mut points: Vec<Point> = Vec::new();
    scale_and_translate(&mut points);
    assert!(points.is_empty());
}

#[test]
fn a_single_point_collapses_onto_the_origin() {
    let mut points = vec![pt(123, -456)];
    scale_and_translate(&mut points);
    assert_eq!(points, vec![pt(0, 0)]);
}

#[test]
fn coinciding_points_collapse_onto_the_origin() {
    let mut points = vec![pt(5, 5), pt(5, 5), pt(5, 5)];
    scale_and_translate(&mut points);
    assert_eq!(points, vec![pt(0, 0), pt(0, 0), pt(0, 0)]);
}

#[test]
fn a_corner_is_scaled_and_centered() {
    let mut points = vec![pt(0, 0), pt(10, 0), pt(10, 10)];
    scale_and_translate(&mut points);
    assert_eq!(points, vec![pt(-43690, -21845), pt(21846, -21845), pt(21846, 43691)]);
}

#[test]
fn the_aspect_ratio_is_kept() {
    let mut points = vec![pt(0, 0), pt(100, 0), pt(100, 50), pt(0, 50)];
    scale_and_translate(&mut points);
    let half = NORMALIZED_EXTENT / 2;
    let quarter = NORMALIZED_EXTENT / 4;
    assert_eq!(
        points,
        vec![pt(-half, -quarter), pt(half, -quarter), pt(half, quarter), pt(-half, quarter)]
    );
}

#[test]
fn a_moved_shape_normalizes_to_the_same_points() {
    let shape = vec![pt(3, 9), pt(14, 2), pt(27, 31), pt(8, 8), pt(-5, 17)];
    let mut here = shape.clone();
    let mut there: Vec<Point> = shape.iter().map(|p| pt(p.x + 1000, p.y - 777)).collect();
    scale_and_translate(&mut here);
    scale_and_translate(&mut there);
    assert_eq!(here, there);
}

#[test]
fn an_enlarged_shape_normalizes_to_the_same_points() {
    let shape = vec![pt(3, 9), pt(14, 2), pt(27, 31), pt(8, 8), pt(-5, 17)];
    for k in 1..20 {
        let mut small = shape.clone();
        let mut large: Vec<Point> = shape.iter().map(|p| pt(p.x * k, p.y * k)).collect();
        scale_and_translate(&mut small);
        scale_and_translate(&mut large);
        assert_eq!(small, large);
    }
}

#[test]
fn the_whole_plane_is_normalized() {
    let mut points = vec![pt(i32::MIN, i32::MIN), pt(i32::MAX, i32::MAX)];
    scale_and_translate(&mut points);
    let half = NORMALIZED_EXTENT / 2;
    assert_eq!(points, vec![pt(-half, -half), pt(half, half)]);
}

#[test]
fn a_moved_shape_is_at_distance_zero() {
    let shape = vec![pt(3, 9), pt(14, 2), pt(27, 31), pt(8, 8), pt(-5, 17), pt(40, 40)];
    let mut here = shape.clone();
    let mut there: Vec<Point> = shape.iter().map(|p| pt(p.x - 31_000, p.y + 12)).collect();
    scale_and_translate(&mut here);
    scale_and_translate(&mut there);
    for starts in 1..4 {
        assert_eq!(match_distance(&here, &there, starts, 6), 0);
    }
}

#[test]
fn an_enlarged_shape_is_at_distance_zero() {
    let shape = vec![pt(3, 9), pt(14, 2), pt(27, 31), pt(8, 8), pt(-5, 17), pt(40, 40)];
    let mut small = shape.clone();
    let mut large: Vec<Point> = shape.iter().map(|p| pt(p.x * 1000, p.y * 1000)).collect();
    scale_and_translate(&mut small);
    scale_and_translate(&mut large);
    for starts in 1..4 {
        assert_eq!(match_distance(&small, &large, starts, 6), 0);
    }
}
