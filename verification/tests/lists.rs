use puzzle_solvers::lists::{
    count_occurrences, parse_pair, similarity_score, sort_ascending, total_distance, PairError,
};
use puzzle_solvers::reports::{count_safe_damped_reports, count_safe_reports, parse_report};

#[test]
fn pairs() {
    assert_eq!(parse_pair(b"3   4"), Ok((3, 4)));
    assert_eq!(parse_pair(b"80784   47731"), Ok((80784, 47731)));
    assert_eq!(parse_pair(b"0   4294967295"), Ok((0, u32::MAX)));
}

#[test]
fn lines_that_hold_no_pair() {
    assert_eq!(parse_pair(b""), Err(PairError::MissingSeparator));
    assert_eq!(parse_pair(b"3 4"), Err(PairError::MissingSeparator));
    assert_eq!(parse_pair(b"3  4"), Err(PairError::MissingSeparator));
    assert_eq!(parse_pair(b"3 \t 4"), Err(PairError::MissingSeparator));
    assert_eq!(parse_pair(b"   4"), Err(PairError::BadLeft));
    assert_eq!(parse_pair(b"x   4"), Err(PairError::BadLeft));
    assert_eq!(parse_pair(b"3   "), Err(PairError::BadRight));
    assert_eq!(parse_pair(b"3    4"), Err(PairError::BadRight));
    assert_eq!(parse_pair(b"3   4   5"), Err(PairError::BadRight));
    assert_eq!(parse_pair(b"3   4294967296"), Err(PairError::BadRight));
    assert_eq!(parse_pair(b"x   y"), Err(PairError::BadLeft));
}

#[test]
fn sample_lists() {
    let mut left = vec![3, 4, 2, 1, 3, 3];
    let mut right = vec![4, 3, 5, 3, 9, 3];
    assert_eq!(total_distance(&mut left, &mut right), Some(11));
    assert_eq!(left, vec![1, 2, 3, 3, 3, 4]);
    assert_eq!(right, vec![3, 3, 3, 4, 5, 9]);
    assert_eq!(similarity_score(&left, &right), Some(31));
    assert_eq!(similarity_score(&vec![3, 4, 2, 1, 3, 3], &vec![4, 3, 5, 3, 9, 3]), Some(31));
}

#[test]
fn distance_goes_as_far_as_the_shorter_list() {
    let mut left = vec![10, 1];
    let mut right = vec![7, 5, 3];
    assert_eq!(total_distance(&mut left, &mut right), Some(7));
    assert_eq!(left, vec![1, 10]);
    assert_eq!(right, vec![3, 5, 7]);
    let mut none: Vec<u32> = Vec::new();
    assert_eq!(total_distance(&mut none, &mut right), Some(0));
}

#[test]
fn distance_that_does_not_fit() {
    let mut left = vec![0, 0];
    let mut right = vec![u32::MAX, 1];
    assert_eq!(total_distance(&mut left, &mut right), None);
    let mut left = vec![0, 0];
    let mut right = vec![u32::MAX, 0];
    assert_eq!(total_distance(&mut left, &mut right), Some(u32::MAX));
}

#[test]
fn occurrences_are_counted() {
    assert_eq!(count_occurrences(&vec![4, 3, 5, 3, 9, 3], 3), 3);
    assert_eq!(count_occurrences(&vec![4, 3, 5, 3, 9, 3], 4), 1);
    assert_eq!(count_occurrences(&vec![4, 3, 5, 3, 9, 3], 1), 0);
    assert_eq!(count_occurrences(&Vec::new(), 1), 0);
}

#[test]
fn similarity_that_does_not_fit() {
    assert_eq!(similarity_score(&vec![u32::MAX], &vec![u32::MAX]), Some(u32::MAX));
    assert_eq!(similarity_score(&vec![u32::MAX], &vec![u32::MAX, u32::MAX]), None);
    assert_eq!(similarity_score(&vec![u32::MAX, 1], &vec![u32::MAX, 1]), None);
    assert_eq!(similarity_score(&vec![0, 0], &vec![0, 0, 0]), Some(0));
    assert_eq!(similarity_score(&vec![5], &Vec::new()), Some(0));
}

#[test]
fn report_lines() {
    assert_eq!(parse_report(b"7 6 4 2 1"), Some(vec![7, 6, 4, 2, 1]));
    assert_eq!(parse_report(b"7"), Some(vec![7]));
    assert_eq!(parse_report(b""), None);
    assert_eq!(parse_report(b"7  6"), None);
    assert_eq!(parse_report(b"7 6 "), None);
    assert_eq!(parse_report(b"7,6"), None);
}

#[test]
fn sample_reports_are_counted() {
    let lines = ["7 6 4 2 1", "1 2 7 8 9", "9 7 6 2 1", "1 3 2 4 5", "8 6 4 4 1", "1 3 6 7 9"];
    let reports: Vec<Vec<u32>> =
        lines.iter().map(|l| parse_report(l.as_bytes()).unwrap()).collect();
    assert_eq!(count_safe_reports(&reports), 2);
    assert_eq!(count_safe_damped_reports(&reports), 4);
    assert_eq!(count_safe_reports(&Vec::new()), 0);
    assert_eq!(count_safe_damped_reports(&Vec::new()), 0);
}

#[test]
fn sorting_agrees_with_the_standard_sort() {
    let mut state: u32 = 7;
    for len in 0..40usize {
        let mut numbers: Vec<u32> = Vec::new();
        for _ in 0..len {
            state = state.wrapping_mul(1664525).wrapping_add(1013904223);
            numbers.push((state >> 24) % 16);
        }
        let mut expected = numbers.clone();
        expected.sort_unstable();
        sort_ascending(&mut numbers);
        assert_eq!(numbers, expected);
    }
    let mut numbers = vec![u32::MAX, 0, u32::MAX, 1];
    sort_ascending(&mut numbers);
    assert_eq!(numbers, vec![0, 1, u32::MAX, u32::MAX]);
}
