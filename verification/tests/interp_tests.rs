use sansa::interp::{bezier, linear, turn};

#[test]
fn linear_moves_toward_the_target() {
    assert_eq!(linear(0, 1000, 0, 10), 0);
    assert_eq!(linear(0, 1000, 5, 10), 500);
    assert_eq!(linear(0, 1000, 10, 10), 1000);
}

#[test]
fn linear_handles_descending_ranges() {
    assert_eq!(linear(1000, 0, 5, 10), 500);
    assert_eq!(linear(100, -100, 5, 10), 0);
    assert_eq!(linear(-100, -300, 5, 10), -200);
}

#[test]
fn linear_truncates_toward_the_start() {
    // 100 * 1 / 3 truncates to 33 above 0, and mirrors below it
    assert_eq!(linear(0, 100, 1, 3), 33);
    assert_eq!(linear(0, -100, 1, 3), -33);
}

#[test]
fn linear_with_no_duration_stays_at_the_start() {
    assert_eq!(linear(42, 99, 0, 0), 42);
}

#[test]
fn turn_covers_a_full_circle() {
    assert_eq!(turn(0, 8), 0);
    assert_eq!(turn(2, 8), 90_000);
    assert_eq!(turn(4, 8), 180_000);
    assert_eq!(turn(8, 8), 360_000);
    assert_eq!(turn(0, 0), 0);
}

#[test]
fn bezier_hits_its_endpoints() {
    assert_eq!(bezier(10, 50, 90, 130, 0, 8), 10);
    assert_eq!(bezier(10, 50, 90, 130, 8, 8), 130);
    assert_eq!(bezier(-10, 0, 0, -20, 0, 5), -10);
    assert_eq!(bezier(-10, 0, 0, -20, 5, 5), -20);
}

#[test]
fn bezier_midpoint_weights_the_control_points() {
    // at t = 1/2 the Bernstein weights are 1/8, 3/8, 3/8, 1/8
    assert_eq!(bezier(0, 0, 0, 800, 1, 2), 100);
    assert_eq!(bezier(0, 800, 800, 800, 1, 2), 700);
    assert_eq!(bezier(8, 8, 8, 8, 1, 2), 8);
}

#[test]
fn bezier_with_no_duration_stays_at_the_start() {
    assert_eq!(bezier(7, 1, 2, 3, 0, 0), 7);
}
