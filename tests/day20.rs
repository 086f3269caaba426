use aoc2022::day20::{coordinates, mix, parse_numbers, part1, part2};

const EXAMPLE: &str = "1\n2\n-3\n3\n-2\n0\n4\n";

#[test]
fn day20_test_part1() {
    assert_eq!(part1(EXAMPLE), 3);
}

#[test]
fn day20_test_part2() {
    assert_eq!(part2(EXAMPLE), 1623178306);
}

#[test]
fn one_round_of_mixing() {
    let mut v = parse_numbers(EXAMPLE).unwrap();
    assert_eq!(v[2], (2, -3));
    mix(&mut v);
    let values: Vec<i64> = v.iter().map(|e| e.1).collect();
    // The same circle as 1, 2, -3, 4, 0, 3, -2.
    assert_eq!(values, vec![-2, 1, 2, -3, 4, 0, 3]);
    assert_eq!(coordinates(&v), 3);
    assert!(parse_numbers("1\nx\n").is_none());
}

#[test]
fn coordinates_wrap() {
    let v = vec![(0, 0), (1, 5)];
    // 1000, 2000 and 3000 after index 0 of a two-entry list are indices 0, 0 and 0.
    assert_eq!(coordinates(&v), 0);
    let w = vec![(0, 7), (1, 0), (2, 1)];
    // From index 1: 1001 % 3 = 2, 2001 % 3 = 0, 3001 % 3 = 1.
    assert_eq!(coordinates(&w), 1 + 7 + 0);
}
