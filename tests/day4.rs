use aoc2022::day4::{generator, part1, part2, Range};

const EXAMPLE: &str = "2-4,6-8\n\
                       2-3,4-5\n\
                       5-7,7-9\n\
                       2-8,3-7\n\
                       6-6,4-6\n\
                       2-6,4-8";

#[test]
fn day4_test_part1() {
    let input = generator(EXAMPLE).unwrap();
    assert_eq!(part1(&input), 2);
}

#[test]
fn day4_test_part2() {
    let input = generator(EXAMPLE).unwrap();
    assert_eq!(part2(&input), 4);
}

#[test]
fn ranges_parse_and_compare() {
    let a = Range::from_str(b"2-8").unwrap();
    assert_eq!(a, Range { start: 2, end: 8 });
    let b = Range::from_str(b"3-7").unwrap();
    assert!(a.contains(&b));
    assert!(!b.contains(&a));
    assert!(a.overlaps(&b));
    assert!(!Range { start: 1, end: 2 }.overlaps(&Range { start: 3, end: 4 }));
    assert!(Range::from_str(b"3").is_none());
    assert!(Range::from_str(b"a-4").is_none());
    assert!(generator("1-2,3").is_none());
}
