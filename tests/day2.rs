use aoc2022::day2::{beats, loses_to, part1, part2};

const EXAMPLE: &str = "A Y\n\
                       B X\n\
                       C Z";

#[test]
fn day2_test_part1() {
    assert_eq!(part1(EXAMPLE), 15);
}

#[test]
fn day2_test_part2() {
    assert_eq!(part2(EXAMPLE), 12);
}

#[test]
fn plays_cycle() {
    assert_eq!(beats(0), 1);
    assert_eq!(beats(2), 0);
    assert_eq!(loses_to(0), 2);
    assert_eq!(loses_to(1), 0);
}

#[test]
fn empty_and_trailing_newline() {
    assert_eq!(part1(""), 0);
    assert_eq!(part1("A Y\n"), 8);
    assert_eq!(part2("C X\n"), 2);
}
