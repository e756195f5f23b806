use aoc24::day01::{part_1, part_2};

const SAMPLE: &str = "3   4
4   3
2   5
1   3
3   9
3   3
";

#[test]
fn day_01_test_part_1() {
    assert_eq!(part_1(SAMPLE), Some(11));
}

#[test]
fn day_01_test_part_2() {
    assert_eq!(part_2(SAMPLE), Some(31));
}

#[test]
fn day_01_line_with_one_number_is_refused() {
    assert_eq!(part_1("3   4\n5\n"), None);
    assert_eq!(part_2("3   4\n5\n"), None);
}

#[test]
fn day_01_sorting_pairs_smallest_with_smallest() {
    // sorted: [1, 5] and [2, 10] give |1-2| + |5-10|
    assert_eq!(part_1("5 2\n1 10\n"), Some(6));
}

#[test]
fn day_01_overflowing_total_is_refused() {
    assert_eq!(part_1("-9223372036854775808 9223372036854775807\n"), None);
}
