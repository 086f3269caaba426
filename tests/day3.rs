use aoc2022::day3::{part1, part2, priority, CharSet};

const EXAMPLE: &str = "vJrwpWtwJgWrhcsFMMfFFhFp\n\
                       jqHRNqRjqzjGDLGLrsFMfFZSrLrFZsSL\n\
                       PmmdzqPrVvPwwTWBwg\n\
                       wMqvLMZHhHMvwLHjbvcjnnSBnvTQFn\n\
                       ttgJtRGJQctTZtZT\n\
                       CrZsJsPPZsGzwwsLwLmpwMDw";

#[test]
fn day3_test_part1() {
    assert_eq!(part1(EXAMPLE), 157);
}

#[test]
fn day3_test_part2() {
    assert_eq!(part2(EXAMPLE), 70);
}

#[test]
fn priorities_and_sets() {
    assert_eq!(priority(b'a'), 1);
    assert_eq!(priority(b'z'), 26);
    assert_eq!(priority(b'A'), 27);
    assert_eq!(priority(b'Z'), 52);
    let a = CharSet::from(b"abcZ");
    let b = CharSet::from(b"xyZc");
    assert_eq!(a.intersect(&b), 3);
    let c = CharSet::from(b"Z");
    assert_eq!(a.intersect3(&b, &c), 52);
    assert_eq!(a.intersect(&CharSet::from(b"q")), 0);
    assert_eq!(CharSet::new().intersect(&a), 0);
}
