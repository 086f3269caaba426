use aoc2022::day12::{generator, next_steps, part1, part2, prev_steps, HeightMap};

const EXAMPLE: &str = "Sabqponm\n\
                       abcryxxl\n\
                       accszExk\n\
                       acctuvwj\n\
                       abdefghi\n";

#[test]
fn day12_test_part1() {
    let input = generator(EXAMPLE.as_bytes()).unwrap();
    assert_eq!(part1(&input), Some(31));
}

#[test]
fn day12_test_part2() {
    let input = generator(EXAMPLE.as_bytes()).unwrap();
    assert_eq!(part2(&input), Some(29));
}

#[test]
fn maps_parse() {
    let m = generator(b"SbE\n").unwrap();
    assert_eq!((m.width, m.height, m.start, m.end), (3, 1, (0, 0), (0, 2)));
    assert_eq!(m.heights, vec![0, 1, 25]);
    assert_eq!(part1(&m), None);
    assert!(generator(b"SaE\nab\n").is_none());
    assert!(generator(b"SaS\nEaa\n").is_none());
    assert!(generator(b"Sa\n").is_none());
    assert!(generator(b"S1E\n").is_none());
    let empty = HeightMap::new();
    assert_eq!((empty.width, empty.height), (0, 0));
}

#[test]
fn steps_respect_climbing() {
    let m = generator(b"Sbc\nEzy\n").unwrap();
    let next: Vec<(i32, i32)> = next_steps(&m, (0, 0)).into_iter().map(|s| s.0).collect();
    assert_eq!(next, vec![(0, 1)]);
    let prev: Vec<(i32, i32)> = prev_steps(&m, (1, 1)).into_iter().map(|s| s.0).collect();
    assert_eq!(prev, vec![(1, 0), (1, 2)]);
    assert_eq!(part1(&generator(b"SbcdefghijklmnopqrstuvwxyE\n").unwrap()), Some(25));
}
