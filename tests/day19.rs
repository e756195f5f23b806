use aoc24::day19::{count_possible, is_possible, part_1, part_2};

const SAMPLE: &str = "r, wr, b, g, bwu, rb, gb, br

brwrr
bggr
gbbr
rrbgbr
ubwu
bwurrg
brgr
bbrwb
";

fn patterns() -> Vec<Vec<u8>> {
    ["r", "wr", "b", "g", "bwu", "rb", "gb", "br"].iter().map(|p| p.as_bytes().to_vec()).collect()
}

#[test]
fn towels_possible_designs() {
    assert_eq!(part_1(SAMPLE), Some(6));
}

#[test]
fn towels_all_arrangements() {
    assert_eq!(part_2(SAMPLE), Some(16));
}

#[test]
fn towels_single_designs() {
    let ps = patterns();
    assert!(is_possible(&b"brwrr".to_vec(), &ps));
    assert!(!is_possible(&b"ubwu".to_vec(), &ps));
    assert_eq!(count_possible(&b"gbbr".to_vec(), &ps), Some(4));
    assert_eq!(count_possible(&b"rrbgbr".to_vec(), &ps), Some(6));
    assert_eq!(count_possible(&Vec::new(), &ps), Some(1));
}

#[test]
fn towels_without_blank_line_are_refused() {
    assert_eq!(part_1("r, b\nrb\n"), None);
}
