use aoc24::day12::{part_1, part_2};

const LARGE: &str = "RRRRIICCFF
RRRRIICCCF
VVRRRCCFFF
VVRCCCJFFF
VVVVCJJCFE
VVIVCCJJEE
VVIIICJJEE
MIIIIIJJEE
MIIISIJEEE
MMMISSJEEE
";

const E_SHAPE: &str = "EEEEE
EXXXX
EEEEE
EXXXX
EEEEE
";

#[test]
fn day_12_check_part_1() {
    assert_eq!(part_1(LARGE), Some(1930));
}

#[test]
fn day_12_check_part_2() {
    assert_eq!(part_2(E_SHAPE), Some(236));
}

#[test]
fn day_12_small_gardens() {
    let small = "AAAA\nBBCD\nBBCC\nEEEC\n";
    assert_eq!(part_1(small), Some(140));
    assert_eq!(part_2(small), Some(80));
    assert_eq!(part_2(LARGE), Some(1206));
}
