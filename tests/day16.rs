use aoc24::day16::{part_1, part_2};

const SAMPLE: &str = "###############
#.......#....E#
#.#.###.#.###.#
#.....#.#...#.#
#.###.#####.#.#
#.#.#.......#.#
#.#.#####.###.#
#...........#.#
###.#.#####.#.#
#...#.....#.#.#
#.#.#.###.#.#.#
#.....#...#.#.#
#.###.#.#.#.#.#
#S..#.....#...#
###############
";

#[test]
fn day_16_check_part_1() {
    assert_eq!(part_1(SAMPLE), Some(7036));
}

#[test]
fn day_16_check_part_2() {
    assert_eq!(part_2(SAMPLE), Some(45));
}

#[test]
fn maze_straight_line_costs_two() {
    assert_eq!(part_1("S.E\n"), Some(2));
    assert_eq!(part_2("S.E\n"), Some(3));
}

#[test]
fn maze_wall_between_start_and_end_is_unreachable() {
    assert_eq!(part_1("S#E\n"), None);
    assert_eq!(part_2("S#E\n"), None);
}

#[test]
fn maze_two_equal_paths_are_both_traced() {
    // Around the middle wall, over or under, both cost 4 steps and three turns
    let maze = "#####\n#...#\n#S#E#\n#...#\n#####\n";
    assert_eq!(part_1(maze), Some(3004));
    assert_eq!(part_2(maze), Some(8));
}

#[test]
fn maze_without_end_or_ragged_is_refused() {
    assert_eq!(part_1("S..\n"), None);
    assert_eq!(part_1("S..\n.E\n"), None);
}
