use aoc2022::day06::{find_marker, part1, part2};

#[test]
fn day06_test_part1() {
    assert_eq!(part1(b"bvwbjplbgvbhsrlpgdmjqwftvncz"), 5);
    assert_eq!(part1(b"nppdvjthqldpwncqszvftbrmjlhg"), 6);
    assert_eq!(part1(b"nznrnfrfntjfmvfwmzdfjlvtqnbhcprsg"), 10);
    assert_eq!(part1(b"zcfzfwzzqfrljwzlrfnpqdbhtmscgvjw"), 11);
}

#[test]
fn day06_test_part2() {
    assert_eq!(part2(b"mjqjpqmgbljsphdztnvjfqwrcgsmlb"), 19);
    assert_eq!(part2(b"bvwbjplbgvbhsrlpgdmjqwftvncz"), 23);
    assert_eq!(part2(b"nppdvjthqldpwncqszvftbrmjlhg"), 23);
    assert_eq!(part2(b"nznrnfrfntjfmvfwmzdfjlvtqnbhcprsg"), 29);
    assert_eq!(part2(b"zcfzfwzzqfrljwzlrfnpqdbhtmscgvjw"), 26);
}

#[test]
fn marker_at_the_very_start() {
    assert_eq!(find_marker(4, b"abcd"), 4);
    assert_eq!(find_marker(1, b"a"), 1);
    assert_eq!(find_marker(2, b"aab"), 3);
}
