use aoc24::day13::{part_1, part_2, Problem};

const SAMPLE: &str = "Button A: X+94, Y+34
Button B: X+22, Y+67
Prize: X=8400, Y=5400

Button A: X+26, Y+66
Button B: X+67, Y+21
Prize: X=12748, Y=12176

Button A: X+17, Y+86
Button B: X+84, Y+37
Prize: X=7870, Y=6450

Button A: X+69, Y+23
Button B: X+27, Y+71
Prize: X=18641, Y=10279
";

#[test]
fn day_13_check_part_1() {
    assert_eq!(part_1(SAMPLE), Some(480));
}

#[test]
fn day_13_single_machines() {
    let p = Problem { a: (94, 34), b: (22, 67), t: (8400, 5400) };
    assert_eq!(p.solve(), Some((80, 40)));
    let q = Problem { a: (26, 66), b: (67, 21), t: (12748, 12176) };
    assert_eq!(q.solve(), None);
    let parallel = Problem { a: (1, 1), b: (2, 2), t: (3, 3) };
    assert_eq!(parallel.solve(), None);
}

#[test]
fn day_13_moved_prizes() {
    let r = part_2(SAMPLE).unwrap();
    assert!(r > 480);
}

#[test]
fn day_13_partial_machine_is_refused() {
    assert_eq!(part_1("Button A: X+94, Y+34\n"), None);
}
