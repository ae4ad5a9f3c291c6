use puzzle_solvers::reports::{is_safe_damped_report, is_safe_report, MAX_DIFF};

#[test]
fn largest_step_is_three() {
    assert_eq!(MAX_DIFF, 3);
}

#[test]
fn sample_reports() {
    assert!(is_safe_report(&[7, 6, 4, 2, 1]));
    assert!(!is_safe_report(&[1, 2, 7, 8, 9]));
    assert!(!is_safe_report(&[9, 7, 6, 2, 1]));
    assert!(!is_safe_report(&[1, 3, 2, 4, 5]));
    assert!(!is_safe_report(&[8, 6, 4, 4, 1]));
    assert!(is_safe_report(&[1, 3, 6, 7, 9]));
}

#[test]
fn sample_reports_damped() {
    assert!(is_safe_damped_report(&[7, 6, 4, 2, 1]));
    assert!(!is_safe_damped_report(&[1, 2, 7, 8, 9]));
    assert!(!is_safe_damped_report(&[9, 7, 6, 2, 1]));
    assert!(is_safe_damped_report(&[1, 3, 2, 4, 5]));
    assert!(is_safe_damped_report(&[8, 6, 4, 4, 1]));
    assert!(is_safe_damped_report(&[1, 3, 6, 7, 9]));
}

#[test]
fn short_reports() {
    assert!(!is_safe_report(&[]));
    assert!(is_safe_report(&[5]));
    assert!(is_safe_report(&[5, 8]));
    assert!(is_safe_report(&[8, 5]));
    assert!(!is_safe_report(&[5, 9]));
    assert!(!is_safe_report(&[9, 5]));
    assert!(!is_safe_report(&[5, 5]));
}

#[test]
fn short_reports_damped() {
    assert!(!is_safe_damped_report(&[]));
    // Taking the one level out leaves nothing.
    assert!(!is_safe_damped_report(&[5]));
    assert!(is_safe_damped_report(&[5, 5]));
    assert!(is_safe_damped_report(&[5, 50]));
    assert!(is_safe_damped_report(&[5, 50, 51]));
    assert!(!is_safe_damped_report(&[5, 50, 5, 50]));
}

#[test]
fn steps_at_the_ends_of_the_range() {
    assert!(is_safe_report(&[u32::MAX - 3, u32::MAX]));
    assert!(is_safe_report(&[3, 0]));
    assert!(!is_safe_report(&[0, u32::MAX]));
    assert!(!is_safe_report(&[u32::MAX, 0]));
}

#[test]
fn damping_can_take_out_the_first_or_the_last() {
    assert!(is_safe_damped_report(&[100, 1, 2, 3]));
    assert!(is_safe_damped_report(&[1, 2, 3, 100]));
    assert!(is_safe_damped_report(&[3, 1, 2, 3]));
    assert!(!is_safe_damped_report(&[100, 1, 2, 3, 100]));
}
