use stroke_recognizer::epsilon::{restart_offsets, Epsilon};

fn eps(num: u32, den: u32) -> Epsilon {
    Epsilon::new(num, den).unwrap()
}

#[test]
fn only_fractions_between_zero_and_one_are_exponents() {
    assert_eq!(Epsilon::new(1, 2), Some(Epsilon { num: 1, den: 2 }));
    assert_eq!(Epsilon::new(0, 1), Some(Epsilon { num: 0, den: 1 }));
    assert_eq!(Epsilon::new(7, 7), Some(Epsilon { num: 7, den: 7 }));
    assert_eq!(Epsilon::new(3, 2), None);
    assert_eq!(Epsilon::new(1, 0), None);
    assert_eq!(Epsilon::new(0, 0), None);
}

#[test]
fn the_square_root_of_thirty_two_rounds_up_to_six() {
    assert_eq!(restart_offsets(32, eps(1, 2)), 6);
    assert_eq!(restart_offsets(32, eps(2, 4)), 6);
    assert_eq!(restart_offsets(32, eps(50, 100)), 6);
}

#[test]
fn whole_roots_are_not_rounded() {
    assert_eq!(restart_offsets(64, eps(1, 2)), 8);
    assert_eq!(restart_offsets(27, eps(1, 3)), 3);
    assert_eq!(restart_offsets(27, eps(2, 3)), 9);
    assert_eq!(restart_offsets(1, eps(1, 2)), 1);
}

#[test]
fn other_exponents() {
    assert_eq!(restart_offsets(32, eps(1, 3)), 4);
    assert_eq!(restart_offsets(32, eps(3, 4)), 14);
    assert_eq!(restart_offsets(32, eps(1, 10)), 2);
    assert_eq!(restart_offsets(32, eps(9, 10)), 23);
    assert_eq!(restart_offsets(1000, eps(1, 100)), 2);
}

#[test]
fn the_ends_of_the_dial() {
    assert_eq!(restart_offsets(32, eps(0, 1)), 1);
    assert_eq!(restart_offsets(32, eps(0, 5)), 1);
    assert_eq!(restart_offsets(32, eps(1, 1)), 32);
    assert_eq!(restart_offsets(32, eps(5, 5)), 32);
}

#[test]
fn no_points_need_no_offsets() {
    assert_eq!(restart_offsets(0, eps(1, 2)), 0);
    assert_eq!(restart_offsets(0, eps(1, 1)), 0);
    assert_eq!(restart_offsets(0, eps(0, 1)), 1);
}

#[test]
fn powers_beyond_128_bits_are_compared_all_the_same() {
    assert_eq!(restart_offsets(32, eps(25, 25)), 32);
    assert_eq!(restart_offsets(32, eps(26, 26)), 32);
    assert_eq!(restart_offsets(32, eps(26, 52)), 6);
    assert_eq!(restart_offsets(32, eps(33, 100)), 4);
    assert_eq!(restart_offsets(32, eps(99, 100)), 31);
    assert_eq!(restart_offsets(32, eps(1, 1000)), 2);
    assert_eq!(restart_offsets(2, eps(128, 128)), 2);
    assert_eq!(restart_offsets(1_000_000, eps(500, 1000)), 1000);
    assert_eq!(restart_offsets(1_000_001, eps(500, 1000)), 1001);
    assert_eq!(restart_offsets(usize::MAX, eps(3, 3)), usize::MAX);
}

#[test]
fn a_greater_exponent_gives_no_fewer_offsets() {
    let mut last = 0;
    for num in 0..=20 {
        let count = restart_offsets(32, eps(num, 20));
        assert!(count >= last);
        assert!(count <= 32);
        last = count;
    }
    assert_eq!(last, 32);
}
