use aoc24::day04::{part_1, part_2};
use aoc24::Grid;

const SAMPLE: &str = "MMMSXXMASM
MSAMXMSMSA
AMXSXMAAMM
MSAMASMSMX
XMASAMXAMM
XXAMMXXAMA
SMSMSASXSS
SAXAMASAAA
MAMMMXMMMM
MXMXAXMASX
";

#[test]
fn main_check_part_1() {
    assert_eq!(part_1(SAMPLE), Some(18));
}

#[test]
fn main_check_part_2() {
    assert_eq!(part_2(SAMPLE), Some(9));
}

#[test]
fn day_04_single_words() {
    let g = Grid::new("XMAS\n").unwrap();
    assert!(g.has_xmas(0, 0, 1, 0));
    assert!(!g.has_xmas(3, 0, -1, 0));
    assert_eq!(part_1("XMAS\n"), Some(1));
    assert_eq!(part_1("SAMX\n"), Some(1));
    assert_eq!(part_2("M.S\n.A.\nM.S\n"), Some(1));
    assert!(g.has_cross_mas(2, 0, 1, 0));
}

#[test]
fn day_04_ragged_text_is_refused() {
    assert_eq!(part_1("XMAS\nXM\n"), None);
}
