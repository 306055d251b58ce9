use block_shuffle::estimate::{calculate_estimated_permutation_count, try_estimate_count};

#[test]
fn estimate_for_the_eight_line_example() {
    // blocksize 8 -> 4 (2 chunks) -> 2 (terminal below the minimum of 4):
    // 2! * (1 + 4!) candidates in all
    assert_eq!(calculate_estimated_permutation_count(8, 8, 4), 50);
    assert_eq!(try_estimate_count(8, 8, 4), Some(50));
}

#[test]
fn estimate_when_the_halved_size_misses_the_minimum() {
    assert_eq!(calculate_estimated_permutation_count(8, 8, 5), 2);
    assert_eq!(try_estimate_count(8, 8, 5), Some(2));
}

#[test]
fn estimate_descends_through_every_level() {
    // blocksize 8 -> 4 -> 2 -> 1: 2! * (1 + 4! * (1 + 8!))
    assert_eq!(calculate_estimated_permutation_count(8, 8, 2), 1_935_410);
    assert_eq!(try_estimate_count(8, 8, 2), Some(1_935_410));
}

#[test]
fn estimate_terminal_cases() {
    assert_eq!(calculate_estimated_permutation_count(5, 1, 3), 0);
    assert_eq!(calculate_estimated_permutation_count(5, 2, 3), 0);
    assert_eq!(calculate_estimated_permutation_count(5, 0, 1), 0);
    assert_eq!(try_estimate_count(5, 1, 3), Some(0));
}

#[test]
fn estimate_overflow_is_reported() {
    assert_eq!(try_estimate_count(1000, 1024, 2), None);
}
