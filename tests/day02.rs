use aoc24::day02::{is_safe, is_safe_with_skip, part_1, part_2};

const SAMPLE: &str = "7 6 4 2 1
1 2 7 8 9
9 7 6 2 1
1 3 2 4 5
8 6 4 4 1
1 3 6 7 9
";

#[test]
fn day_02_test_part_1() {
    assert_eq!(part_1(SAMPLE), Some(2));
}

#[test]
fn day_02_test_part_2() {
    assert_eq!(part_2(SAMPLE), Some(4));
}

#[test]
fn day_02_single_reports() {
    assert!(is_safe(&[7, 6, 4, 2, 1]));
    assert!(!is_safe(&[1, 2, 7, 8, 9]));
    assert!(!is_safe(&[1, 3, 2, 4, 5]));
    assert!(is_safe_with_skip(&[1, 3, 2, 4, 5]));
    assert!(!is_safe_with_skip(&[9, 7, 6, 2, 1]));
    assert!(is_safe(&[4]));
}
