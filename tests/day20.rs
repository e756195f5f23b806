use aoc24::day20::part_1;

const SAMPLE: &str = "###############
#...#...#.....#
#.#.#.#.#.###.#
#S#...#.#.#...#
#######.#.#.###
#######.#.#...#
#######.#.###.#
###..E#...#...#
###.#######.###
#...###...#...#
#.#####.#.###.#
#.#...#.#.#...#
#.#.#.#.#.#.###
#...#...#...###
###############
";

#[test]
fn racetrack_short_cheats() {
    assert_eq!(part_1(SAMPLE, 2, 1), Some(44));
    assert_eq!(part_1(SAMPLE, 2, 20), Some(5));
    assert_eq!(part_1(SAMPLE, 2, 64), Some(1));
    assert_eq!(part_1(SAMPLE, 2, 65), Some(0));
}

#[test]
fn racetrack_long_cheats() {
    assert_eq!(part_1(SAMPLE, 20, 76), Some(3));
    assert_eq!(part_1(SAMPLE, 20, 50), Some(285));
}

#[test]
fn racetrack_refused_inputs() {
    assert_eq!(part_1("...\n", 2, 1), None);
    assert_eq!(part_1(SAMPLE, -1, 1), None);
}
