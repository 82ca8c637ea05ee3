use stroke_recognizer::geometry::Point;
use stroke_recognizer::resample::resample;

fn pt(x: i32, y: i32) -> Point {
    Point { x, y }
}

#[test]
fn three_point_stroke_resampled_to_four() {
    let candidate = vec![vec![pt(0, 0), pt(10, 0), pt(10, 10)]];
    let points = resample(&candidate, 20, 4).unwrap();
    assert_eq!(points, vec![pt(0, 0), pt(5, 0), pt(10, 0), pt(10, 5)]);
}

#[test]
fn zero_length_is_not_resampled() {
    let candidate = vec![vec![pt(0, 0), pt(10, 0)]];
    assert_eq!(resample(&candidate, 0, 4), None);
    let nothing: Vec<Vec<Point>> = Vec::new();
    assert_eq!(resample(&nothing, 0, 32), None);
}

#[test]
fn no_strokes_give_no_points() {
    let nothing: Vec<Vec<Point>> = Vec::new();
    assert_eq!(resample(&nothing, 5, 32), Some(Vec::new()));
}

#[test]
fn strokes_of_one_point_contribute_nothing() {
    let candidate = vec![vec![pt(3, 3)], Vec::new(), vec![pt(9, 9)]];
    assert_eq!(resample(&candidate, 7, 32), Some(Vec::new()));
}

#[test]
fn asking_for_no_points_gives_none() {
    let candidate = vec![vec![pt(0, 0), pt(10, 0)]];
    assert_eq!(resample(&candidate, 10, 0), Some(Vec::new()));
}

#[test]
fn straight_stroke_is_fully_sampled() {
    let candidate = vec![vec![pt(0, 0), pt(100, 0)]];
    let points = resample(&candidate, 100, 32).unwrap();
    assert_eq!(points.len(), 32);
    for (k, p) in points.iter().enumerate() {
        assert_eq!(*p, pt(100 * k as i32 / 32, 0));
    }
    assert_eq!(points[1], pt(3, 0));
    assert_eq!(points[8], pt(25, 0));
    assert_eq!(points[31], pt(96, 0));
}

#[test]
fn never_more_points_than_asked_for() {
    let candidate = vec![
        vec![pt(0, 0), pt(50, 0), pt(50, 50)],
        vec![pt(0, 0), pt(0, 50)],
        vec![pt(7, 7), pt(8, 8)],
    ];
    for n in 0..40usize {
        for total in 1..60u64 {
            let points = resample(&candidate, total, n).unwrap();
            assert!(points.len() <= n);
        }
    }
}

#[test]
fn short_stroke_stops_short() {
    let candidate = vec![vec![pt(0, 0), pt(10, 0)]];
    let points = resample(&candidate, 100, 10).unwrap();
    assert_eq!(points, vec![pt(0, 0), pt(10, 0)]);
}

#[test]
fn remainder_is_carried_over_a_corner() {
    let candidate = vec![vec![pt(0, 0), pt(3, 0), pt(3, 5)]];
    let points = resample(&candidate, 8, 2).unwrap();
    assert_eq!(points, vec![pt(0, 0), pt(3, 1)]);
}

#[test]
fn each_stroke_starts_with_its_first_point() {
    let candidate = vec![vec![pt(0, 0), pt(4, 0)], vec![pt(10, 10), pt(10, 14)]];
    let points = resample(&candidate, 8, 4).unwrap();
    assert_eq!(points, vec![pt(0, 0), pt(2, 0), pt(4, 0), pt(10, 10)]);
}

#[test]
fn a_later_stroke_is_cut_off_once_enough_points_are_out() {
    let candidate = vec![vec![pt(0, 0), pt(4, 0)], vec![pt(10, 10), pt(10, 14)]];
    let points = resample(&candidate, 8, 3).unwrap();
    assert_eq!(points, vec![pt(0, 0), pt(2, 0), pt(10, 10)]);
}

#[test]
fn a_slanting_stroke_is_fully_sampled() {
    let stroke: Vec<Point> = (0..=28).map(|k| pt(3 * k, 3 * k)).collect();
    let points = resample(&vec![stroke], 112, 32).unwrap();
    assert_eq!(points.len(), 32);
    assert_eq!(points[0], pt(0, 0));
    assert_eq!(points[1], pt(2, 2));
    assert_eq!(points[2], pt(5, 5));
    assert_eq!(points[8], pt(21, 21));
    assert_eq!(points[16], pt(42, 42));
    assert_eq!(points[31], pt(81, 81));
}

#[test]
fn a_stroke_with_its_own_length_yields_all_its_points() {
    let stroke = vec![pt(0, 0), pt(7, 1), pt(9, 14), pt(9, 14), pt(-20, 3), pt(-21, 3)];
    let length: u64 = 7 + 13 + 0 + 31 + 1;
    for n in 1..70usize {
        let points = resample(&vec![stroke.clone()], length, n).unwrap();
        assert_eq!(points.len(), n);
        assert_eq!(points[0], pt(0, 0));
    }
}

#[test]
fn a_path_with_its_own_length_yields_all_its_points() {
    let path = vec![
        vec![pt(0, 0), pt(30, 40)],
        vec![pt(5, 5)],
        vec![pt(100, 100), pt(100, 90), pt(130, 90)],
    ];
    for n in 1..70usize {
        let points = resample(&path, 50 + 10 + 30, n).unwrap();
        assert_eq!(points.len(), n);
    }
}

#[test]
fn a_sample_on_a_corner_is_the_corner() {
    let candidate = vec![vec![pt(0, 0), pt(10, 0), pt(10, 10), pt(0, 10)]];
    let points = resample(&candidate, 30, 3).unwrap();
    assert_eq!(points, vec![pt(0, 0), pt(10, 0), pt(10, 10)]);
    let points = resample(&candidate, 30, 6).unwrap();
    assert_eq!(points, vec![pt(0, 0), pt(5, 0), pt(10, 0), pt(10, 5), pt(10, 10), pt(5, 10)]);
}
