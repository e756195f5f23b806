use aoc24::day07::{can_make, part_1, part_2};

const SAMPLE: &str = "190: 10 19
3267: 81 40 27
83: 17 5
156: 15 6
7290: 6 8 6 15
161011: 16 10 13
192: 17 8 14
21037: 9 7 18 13
292: 11 6 16 20
";

#[test]
fn check_concat() {
    assert_eq!(aoc24::day07::concat(123, 456), Some(123456));
}

#[test]
fn day_07_concat_edges() {
    assert_eq!(aoc24::day07::concat(5, 0), Some(5));
    assert_eq!(aoc24::day07::concat(12, 3), Some(123));
    assert_eq!(aoc24::day07::concat(922337203685477580, 7), Some(i64::MAX));
    assert_eq!(aoc24::day07::concat(922337203685477580, 8), None);
}

#[test]
fn day_07_check_part_1() {
    assert_eq!(part_1(SAMPLE), Some(3749));
}

#[test]
fn day_07_check_part_2() {
    assert_eq!(part_2(SAMPLE), Some(11387));
}

#[test]
fn day_07_single_equations() {
    assert_eq!(can_make(190, &[190, 10, 19], 2, 10, false), Some(true));
    assert_eq!(can_make(83, &[83, 17, 5], 2, 17, true), Some(false));
    assert_eq!(can_make(156, &[156, 15, 6], 2, 15, false), Some(false));
    assert_eq!(can_make(156, &[156, 15, 6], 2, 15, true), Some(true));
}

#[test]
fn day_07_line_without_numbers_is_refused() {
    assert_eq!(part_1("190:\n"), None);
}
