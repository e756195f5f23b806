use aoc24::day18::{part_1, part_2};

const SAMPLE: &str = "5,4
4,2
4,5
3,0
2,1
6,3
2,4
1,5
0,6
3,3
2,6
5,1
1,2
5,5
2,5
6,5
1,4
0,4
6,4
1,1
6,1
1,0
0,5
1,6
2,0
";

#[test]
fn memory_after_twelve_bytes() {
    assert_eq!(part_1(SAMPLE, 6, 12), Some(22));
}

#[test]
fn memory_with_nothing_fallen() {
    assert_eq!(part_1(SAMPLE, 6, 0), Some(12));
}

#[test]
fn memory_first_cutting_byte() {
    assert_eq!(part_2(SAMPLE, 6), Some((6, 1)));
}

#[test]
fn memory_refused_inputs() {
    assert_eq!(part_1("1\n", 6, 1), None);
    assert_eq!(part_1(SAMPLE, -1, 12), None);
    assert_eq!(part_2("0,0\n", 6), Some((0, 0)));
}
