use aoc24::day15::part_1;

const SMALL: &str = "########
#..O.O.#
##@.O..#
#...O..#
#.#.O..#
#...O..#
#......#
########

<^^>>>vv<v>>v<<
";

#[test]
fn warehouse_small_example() {
    assert_eq!(part_1(SMALL), Some(2028));
}

#[test]
fn warehouse_without_moves() {
    assert_eq!(part_1("#####\n#@O.#\n#####\n\n\n"), Some(102));
    assert_eq!(part_1("#####\n#@O.#\n#####\n\n>>>\n"), Some(103));
}

#[test]
fn warehouse_refused_inputs() {
    assert_eq!(part_1("#####\n#@O.#\n#####\n\n>x\n"), None);
    assert_eq!(part_1("#####\n#@O.#\n#####\n"), None);
}
