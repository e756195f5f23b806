use aoc24::day11::{count_digits, solve, split_digits};

#[test]
fn day_11_check_part_1() {
    assert_eq!(solve("125 17", 25), Some(55312));
}

#[test]
fn day_11_few_blinks() {
    assert_eq!(solve("125 17", 6), Some(22));
    assert_eq!(solve("0", 1), Some(1));
    assert_eq!(solve("0 1 10 99 999", 1), Some(7));
    assert_eq!(solve("125 17", 0), Some(2));
}

#[test]
fn day_11_refused_inputs() {
    assert_eq!(solve("-3", 2), None);
    assert_eq!(solve("3", -1), None);
}

#[test]
fn day_11_digits() {
    assert_eq!(count_digits(0), 0);
    assert_eq!(count_digits(2024), 4);
    assert_eq!(split_digits(2024), Some((20, 24)));
    assert_eq!(split_digits(1000), Some((10, 0)));
    assert_eq!(split_digits(125), None);
}
