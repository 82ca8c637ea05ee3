use stroke_recognizer::geometry::Point;
use stroke_recognizer::matcher::{
    get_weights, greedy_5_eval_nearest, match_distance, weighted_distance,
};

fn pt(x: i32, y: i32) -> Point {
    Point { x, y }
}

#[test]
fn weights_fall_from_n_to_one() {
    assert_eq!(get_weights(4), vec![4, 3, 2, 1]);
    assert_eq!(get_weights(1), vec![1]);
    assert_eq!(get_weights(0), Vec::<u32>::new());
    let weights = get_weights(32);
    assert_eq!(weights.len(), 32);
    assert_eq!(weights[0], 32);
    assert_eq!(weights[31], 1);
}

#[test]
fn nearest_point_is_taken_and_removed() {
    let mut pool = vec![pt(5, 5), pt(1, 0), pt(9, 9)];
    let candidate = vec![pt(0, 0)];
    let weights = get_weights(3);
    let cost = greedy_5_eval_nearest(0, 1, &mut pool, &candidate, &weights);
    assert_eq!(cost, 2);
    assert_eq!(pool, vec![pt(5, 5), pt(9, 9)]);
}

#[test]
fn the_last_point_fills_the_gap() {
    let mut pool = vec![pt(1, 0), pt(5, 5), pt(9, 9)];
    let candidate = vec![pt(7, 7), pt(0, 0)];
    let weights = get_weights(3);
    let cost = greedy_5_eval_nearest(1, 0, &mut pool, &candidate, &weights);
    assert_eq!(cost, 3);
    assert_eq!(pool, vec![pt(9, 9), pt(5, 5)]);
}

#[test]
fn of_equally_near_points_the_first_is_taken() {
    let mut pool = vec![pt(3, 0), pt(0, 3), pt(-3, 0)];
    let candidate = vec![pt(0, 0)];
    let weights = get_weights(3);
    let cost = greedy_5_eval_nearest(0, 2, &mut pool, &candidate, &weights);
    assert_eq!(cost, 9);
    assert_eq!(pool, vec![pt(-3, 0), pt(0, 3)]);
}

#[test]
fn distance_of_two_pairs() {
    let a = vec![pt(0, 0), pt(4, 0)];
    let b = vec![pt(1, 0), pt(4, 3)];
    assert_eq!(match_distance(&a, &b, 1, 2), 11);
    assert_eq!(match_distance(&a, &b, 2, 2), 11);
}

#[test]
fn another_offset_can_be_cheaper() {
    let a = vec![pt(0, 0), pt(5, 0)];
    let b = vec![pt(2, 0), pt(5, 0)];
    assert_eq!(match_distance(&a, &b, 1, 2), 8);
    assert_eq!(match_distance(&a, &b, 2, 2), 4);
}

#[test]
fn no_offsets_count_as_one() {
    let a = vec![pt(0, 0), pt(5, 0)];
    let b = vec![pt(2, 0), pt(5, 0)];
    assert_eq!(match_distance(&a, &b, 0, 2), 8);
}

#[test]
fn weights_follow_the_cardinality() {
    let a = vec![pt(0, 0), pt(5, 0)];
    let b = vec![pt(2, 0), pt(5, 0)];
    assert_eq!(match_distance(&a, &b, 1, 10), 40);
    assert_eq!(weighted_distance(&a, &b, 1, &get_weights(10)), 40);
}

#[test]
fn distance_to_itself_is_zero() {
    let t = vec![pt(3, 9), pt(14, 2), pt(27, 31), pt(8, 8), pt(-5, 17), pt(3, 9)];
    for starts in 0..8 {
        assert_eq!(match_distance(&t, &t, starts, 6), 0);
        assert_eq!(match_distance(&t, &t, starts, 32), 0);
    }
}

#[test]
fn more_offsets_are_never_worse() {
    let a = vec![pt(0, 0), pt(10, 3), pt(20, -4), pt(31, 8), pt(40, 0), pt(52, 13)];
    let b = vec![pt(50, 10), pt(41, 1), pt(29, 9), pt(22, -2), pt(9, 2), pt(1, 1)];
    let mut last = match_distance(&a, &b, 1, 6);
    for starts in 2..10 {
        let d = match_distance(&a, &b, starts, 6);
        assert!(d <= last);
        last = d;
    }
}

#[test]
fn the_order_of_the_two_sequences_does_not_matter() {
    let a = vec![pt(0, 0), pt(10, 3), pt(20, -4), pt(31, 8)];
    let b = vec![pt(50, 10), pt(41, 1), pt(29, 9), pt(22, -2)];
    for starts in 0..6 {
        assert_eq!(match_distance(&a, &b, starts, 4), match_distance(&b, &a, starts, 4));
    }
}

#[test]
fn a_shorter_sequence_is_matched_as_far_as_it_goes() {
    let a = vec![pt(0, 0)];
    let b = vec![pt(3, 4), pt(1, 0)];
    assert_eq!(match_distance(&a, &b, 1, 2), 2);
    let nothing: Vec<Point> = Vec::new();
    assert_eq!(match_distance(&nothing, &b, 3, 2), 0);
}

#[test]
fn distance_between_far_corners_does_not_overflow() {
    let a = vec![pt(i32::MIN, i32::MIN); 4];
    let b = vec![pt(i32::MAX, i32::MAX); 4];
    let side: u128 = (1u128 << 32) - 1;
    assert_eq!(match_distance(&a, &b, 4, 4), (4 + 3 + 2 + 1) * 2 * side * side);
}
