use aoc24::day05::{is_run_valid, order_run, part_1, part_2};

const SAMPLE: &str = "47|53
97|13
97|61
97|47
75|29
61|13
75|53
29|13
97|29
53|29
61|53
97|53
61|29
47|13
75|47
97|75
47|61
75|61
47|29
75|13
53|13

75,47,61,53,29
97,61,53,29,13
75,29,13
75,97,47,61,53
61,13,29
97,13,75,29,47
";

#[test]
fn day_05_check_part_1() {
    assert_eq!(part_1(SAMPLE), Some(143));
}

#[test]
fn day_05_check_part_2() {
    assert_eq!(part_2(SAMPLE), Some(123));
}

#[test]
fn day_05_single_updates() {
    let rules = vec![(47, 53), (97, 75), (75, 47), (97, 47), (75, 53), (97, 53)];
    assert!(is_run_valid(&vec![97, 75, 47, 53], &rules));
    assert!(!is_run_valid(&vec![75, 97, 47, 53], &rules));
    assert_eq!(order_run(&vec![75, 97, 47], &rules), Some(75));
}

#[test]
fn day_05_without_blank_line_is_refused() {
    assert_eq!(part_1("47|53\n75,47\n"), None);
}
