use aoc24::day10::{part_1, part_2};

const SAMPLE: &str = "89010123
78121874
87430965
96549874
45678903
32019012
01329801
10456732
";

#[test]
fn day_10_check_part_1() {
    assert_eq!(part_1(SAMPLE), Some(36));
}

#[test]
fn day_10_check_part_2() {
    assert_eq!(part_2(SAMPLE), Some(81));
}

#[test]
fn day_10_single_trail() {
    assert_eq!(part_1("0123456789\n"), Some(1));
    assert_eq!(part_2("0123456789\n"), Some(1));
    assert_eq!(part_1("0123456788\n"), Some(0));
}

#[test]
fn day_10_two_trails_to_one_peak() {
    // Two ways round to the same 9: score one, rating two
    let map = "0123\n1234\n2345\n3456\n4567\n5678\n6789\n";
    assert_eq!(part_1(map), Some(1));
    assert!(part_2(map).unwrap() > 1);
}
