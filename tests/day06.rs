use aoc24::day06::{gets_stuck, part_1, part_2};
use aoc24::Grid;

const SAMPLE: &str = "....#.....
.........#
..........
..#.......
.......#..
..........
.#..^.....
........#.
#.........
......#...
";

#[test]
fn day_06_check_part_1() {
    assert_eq!(part_1(SAMPLE), Some(41));
}

#[test]
fn day_06_check_part_2() {
    assert_eq!(part_2(SAMPLE), Some(6));
}

#[test]
fn day_06_single_obstructions() {
    let g = Grid::new(SAMPLE).unwrap();
    assert!(gets_stuck(&g, (4, 6), (3, 6)));
    assert!(!gets_stuck(&g, (4, 6), (0, 0)));
}

#[test]
fn day_06_boxed_in_guard_never_leaves() {
    assert_eq!(part_1(".#.\n#^#\n.#.\n"), None);
    assert_eq!(part_1("...\n.^.\n...\n"), Some(2));
    assert_eq!(part_1("...\n...\n"), None);
}
