use aoc24::day03::{parse_mul, part_1, part_2};
use aoc24::text::parse_int;

#[test]
fn check_parse() {
    assert!(parse_int(b"4 ").is_none());
    assert_eq!(parse_int(b"-42"), Some(-42));
    assert_eq!(parse_int(b"9223372036854775807"), Some(i64::MAX));
    assert_eq!(parse_int(b"9223372036854775808"), None);
    assert_eq!(parse_int(b"-9223372036854775808"), Some(i64::MIN));
    assert_eq!(parse_int(b"-"), None);
}

#[test]
fn day_03_check_part_1() {
    assert_eq!(
        part_1("xmul(2,4)%&mul[3,7]!@^do_not_mul(5,5)+mul(32,64]then(mul(11,8)mul(8,5))"),
        Some(161)
    );
}

#[test]
fn day_03_check_part_2() {
    assert_eq!(
        part_2("xmul(2,4)&mul[3,7]!^don't()_mul(5,5)+mul(32,64](mul(11,8)undo()?mul(8,5))"),
        Some(48)
    );
}

#[test]
fn day_03_single_instruction() {
    assert_eq!(parse_mul(b"mul(3,7)x"), Some(21));
    assert_eq!(parse_mul(b"mul(3 ,7)"), None);
    assert_eq!(parse_mul(b"mul[3,7]"), None);
}
