use iitree::coverage::covered_length;
use iitree::interval::Interval;

fn ivs(ranges: &[(i32, i32)]) -> Vec<Interval> {
    ranges.iter().map(|&(st, en)| Interval { st, en, max: en }).collect()
}

#[test]
fn nothing_covers_nothing() {
    assert_eq!(covered_length(&ivs(&[]), 0, 100), 0);
}

#[test]
fn overlapping_intervals_count_once() {
    assert_eq!(covered_length(&ivs(&[(10, 20), (15, 25)]), 12, 22), 10);
    assert_eq!(covered_length(&ivs(&[(10, 20), (15, 25)]), 0, 100), 15);
}

#[test]
fn disjoint_intervals_add_up() {
    assert_eq!(covered_length(&ivs(&[(0, 5), (8, 10)]), 0, 10), 7);
}

#[test]
fn touching_intervals_merge() {
    assert_eq!(covered_length(&ivs(&[(0, 5), (5, 9)]), 0, 10), 9);
}

#[test]
fn nested_interval_adds_nothing() {
    assert_eq!(covered_length(&ivs(&[(0, 50), (10, 20), (49, 60)]), 0, 100), 60);
}

#[test]
fn intervals_are_cut_to_the_window() {
    assert_eq!(covered_length(&ivs(&[(-50, 3), (7, 500)]), 0, 10), 6);
}

#[test]
fn intervals_outside_the_window_add_nothing() {
    assert_eq!(covered_length(&ivs(&[(-50, -3), (2, 4), (70, 500)]), 0, 10), 2);
}

#[test]
fn first_interval_below_zero() {
    assert_eq!(covered_length(&ivs(&[(-10, -5)]), -10, -5), 5);
    assert_eq!(covered_length(&ivs(&[(-8, -6), (-3, 2)]), -10, 0), 5);
}

#[test]
fn inverted_window_is_empty() {
    assert_eq!(covered_length(&ivs(&[(0, 100)]), 60, 40), 0);
}

#[test]
fn widest_window() {
    assert_eq!(covered_length(&ivs(&[(0, i32::MAX)]), 0, i32::MAX), i32::MAX);
    assert_eq!(covered_length(&ivs(&[(i32::MIN, -1)]), i32::MIN, -1), i32::MAX);
}
