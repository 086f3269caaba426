use aoc2022::day1::{part1, part2};

const EXAMPLE: &str = "1000\n\
                       2000\n\
                       3000\n\
                           \n\
                       4000\n\
                           \n\
                       5000\n\
                       6000\n\
                           \n\
                       7000\n\
                       8000\n\
                       9000\n\
                           \n\
                       10000";

#[test]
fn day1_test_part1() {
    assert_eq!(part1(EXAMPLE), 24000);
}

#[test]
fn day1_test_part2() {
    assert_eq!(part2(EXAMPLE), 45000);
}

#[test]
fn fewer_than_three_groups() {
    assert_eq!(part2("5\n\n7"), 12);
    assert_eq!(part1(""), 0);
    assert_eq!(part2(""), 0);
    assert_eq!(part1("3\n4\n"), 7);
}
