use stroke_recognizer::geometry::Point;
use stroke_recognizer::store::{same_points, TemplateError, TemplateStore, N_RESAMPLED_POINTS};

fn pt(x: i32, y: i32) -> Point {
    Point { x, y }
}

fn ramp(n: usize, step: i32) -> Vec<Point> {
    (0..n).map(|k| pt(step * k as i32, k as i32)).collect()
}

#[test]
fn the_usual_cardinality_is_thirty_two() {
    assert_eq!(N_RESAMPLED_POINTS, 32);
    let store = TemplateStore::new(N_RESAMPLED_POINTS);
    assert_eq!(store.cardinality(), 32);
    assert_eq!(store.len(), 0);
}

#[test]
fn equal_sequences_are_the_same() {
    assert!(same_points(&ramp(5, 2), &ramp(5, 2)));
    assert!(!same_points(&ramp(5, 2), &ramp(5, 3)));
    assert!(!same_points(&ramp(5, 2), &ramp(4, 2)));
    assert!(same_points(&Vec::new(), &Vec::new()));
    assert!(!same_points(&vec![pt(1, 2)], &vec![pt(2, 1)]));
}

#[test]
fn a_template_is_added_once() {
    let mut store = TemplateStore::new(4);
    assert_eq!(store.add_template("line".to_string(), ramp(4, 1)), Ok(true));
    assert_eq!(store.len(), 1);
    assert_eq!(store.add_template("line".to_string(), ramp(4, 1)), Ok(false));
    assert_eq!(store.len(), 1);
    assert!(store.contains(&"line".to_string(), &ramp(4, 1)));
}

#[test]
fn a_label_holds_several_templates() {
    let mut store = TemplateStore::new(4);
    assert_eq!(store.add_template("line".to_string(), ramp(4, 1)), Ok(true));
    assert_eq!(store.add_template("line".to_string(), ramp(4, 2)), Ok(true));
    assert_eq!(store.add_template("slope".to_string(), ramp(4, 1)), Ok(true));
    assert_eq!(store.len(), 3);
    assert!(store.contains(&"line".to_string(), &ramp(4, 2)));
    assert!(store.contains(&"slope".to_string(), &ramp(4, 1)));
    assert!(!store.contains(&"slope".to_string(), &ramp(4, 2)));
    assert!(!store.contains(&"curve".to_string(), &ramp(4, 1)));
}

#[test]
fn templates_keep_the_order_of_addition() {
    let mut store = TemplateStore::new(3);
    store.add_template("b".to_string(), ramp(3, 5)).unwrap();
    store.add_template("a".to_string(), ramp(3, 7)).unwrap();
    assert_eq!(store.label_at(0), "b");
    assert_eq!(store.points_at(0), &ramp(3, 5));
    assert_eq!(store.label_at(1), "a");
    assert_eq!(store.points_at(1), &ramp(3, 7));
}

#[test]
fn too_few_points_are_refused() {
    let mut store = TemplateStore::new(32);
    assert_eq!(
        store.add_template("short".to_string(), ramp(31, 1)),
        Err(TemplateError::InsufficientPoints)
    );
    assert_eq!(
        store.add_template("none".to_string(), Vec::new()),
        Err(TemplateError::InsufficientPoints)
    );
    assert_eq!(store.len(), 0);
    assert!(!store.contains(&"short".to_string(), &ramp(31, 1)));
}

#[test]
fn too_many_points_are_refused() {
    let mut store = TemplateStore::new(32);
    assert_eq!(
        store.add_template("long".to_string(), ramp(33, 1)),
        Err(TemplateError::ExcessPoints)
    );
    assert_eq!(store.len(), 0);
}

#[test]
fn a_store_of_empty_templates() {
    let mut store = TemplateStore::new(0);
    assert_eq!(store.add_template("void".to_string(), Vec::new()), Ok(true));
    assert_eq!(store.add_template("void".to_string(), Vec::new()), Ok(false));
    assert_eq!(store.add_template("dot".to_string(), vec![pt(0, 0)]), Err(TemplateError::ExcessPoints));
}
