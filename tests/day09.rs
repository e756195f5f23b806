use aoc24::day09::{compact_checksum, disk_files, expand, parse_map, part_1, part_2};

#[test]
fn day_09_check_part_1() {
    assert_eq!(part_1("2333133121414131402"), Some(1928));
}

#[test]
fn day_09_small_disk() {
    // 0..111....22222 compacts to 022111222
    let m = parse_map(b"12345\n").unwrap();
    assert_eq!(m, vec![1, 2, 3, 4, 5]);
    let blocks = expand(&m);
    assert_eq!(blocks, vec![0, -1, -1, 1, 1, 1, -1, -1, -1, -1, 2, 2, 2, 2, 2]);
    assert_eq!(compact_checksum(&blocks), Some(60));
}

#[test]
fn day_09_bad_map_is_refused() {
    assert_eq!(part_1("12x45"), None);
    assert_eq!(part_1(""), Some(0));
}

#[test]
fn day_09_check_part_2() {
    assert_eq!(part_2("2333133121414131402"), Some(2858));
}

#[test]
fn day_09_whole_files() {
    let m = parse_map(b"12345").unwrap();
    assert_eq!(disk_files(&m), vec![(0, 1, 0), (1, 3, 3), (2, 5, 10)]);
    // no gap to the left of a file holds it whole, so nothing moves
    assert_eq!(part_2("12345"), Some(1 * (3 + 4 + 5) + 2 * (10 + 11 + 12 + 13 + 14)));
    // 0...11 becomes 011: file 1 moves into the gap right after file 0
    assert_eq!(part_2("132"), Some(1 * (1 + 2)));
    // 0..111: the gap of two cannot hold file 1
    assert_eq!(part_2("123"), Some(1 * (3 + 4 + 5)));
}
