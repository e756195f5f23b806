use aoc24::day14::{find_connected, part_1};
use aoc24::Vector2d;

const SAMPLE: &str = "p=0,4 v=3,-3
p=6,3 v=-1,-3
p=10,3 v=-1,2
p=2,0 v=2,-1
p=0,0 v=1,3
p=3,0 v=-2,-2
p=7,6 v=-1,-3
p=3,0 v=-1,-2
p=9,3 v=2,3
p=7,3 v=-1,2
p=2,4 v=2,-3
p=9,5 v=-3,-3
";

#[test]
fn day_14_check_part_1() {
    assert_eq!(part_1(SAMPLE, Vector2d(11, 7)), Some(12));
}

#[test]
fn day_14_empty_quadrant_gives_zero() {
    assert_eq!(part_1("p=0,0 v=0,0\n", Vector2d(11, 7)), Some(0));
}

#[test]
fn day_14_refused_inputs() {
    assert_eq!(part_1(SAMPLE, Vector2d(0, 7)), None);
    assert_eq!(part_1("p=0,4 v=3\n", Vector2d(11, 7)), None);
}

#[test]
fn day_14_connected_robots() {
    let ps = vec![(0, 0), (1, 1), (2, 2), (5, 5), (2, 3)];
    assert_eq!(find_connected(&ps, 0), Some(vec![true, true, true, false, true]));
    assert_eq!(find_connected(&ps, 3), Some(vec![false, false, false, true, false]));
}
