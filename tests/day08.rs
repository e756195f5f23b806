use aoc24::day08::{part_1, part_2};

const SAMPLE: &str = "............
........0...
.....0......
.......0....
....0.......
......A.....
............
............
........A...
.........A..
............
............
";

#[test]
fn day_08_check_part_1() {
    assert_eq!(part_1(SAMPLE), Some(14));
}

#[test]
fn day_08_check_part_2() {
    assert_eq!(part_2(SAMPLE), Some(34));
}

#[test]
fn day_08_single_pair() {
    // a at column 1 and b at column 2: antinodes at columns 0 and 3
    assert_eq!(part_1(".aa.\n"), Some(2));
    assert_eq!(part_2(".aa.\n"), Some(4));
    assert_eq!(part_1(".ab.\n"), Some(0));
}

#[test]
fn day_08_ragged_map_is_refused() {
    assert_eq!(part_1("..\n.\n"), None);
}
