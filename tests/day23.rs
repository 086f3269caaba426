use aoc2022::day23::{do_round, generator, has_neighbors, part1, part2, proposed_move, Direction};

const EXAMPLE: &str = "....#..\n\
                       ..###.#\n\
                       #...#.#\n\
                       .#...##\n\
                       #.###..\n\
                       ##.#.##\n\
                       .#..#..\n";

#[test]
fn day23_test_part1() {
    let input = generator(EXAMPLE).unwrap();
    assert_eq!(part1(&input), 110);
}

#[test]
fn day23_test_part2() {
    let input = generator(EXAMPLE).unwrap();
    assert_eq!(part2(&input), 20);
}

#[test]
fn small_example_rounds() {
    let mut elves = generator(".....\n..##.\n..#..\n.....\n..##.\n.....\n").unwrap();
    assert_eq!(elves, vec![(1, 2), (1, 3), (2, 2), (4, 2), (4, 3)]);
    let mut direction = Direction::North;
    assert!(has_neighbors((1, 2), &elves));
    assert_eq!(proposed_move((1, 2), &direction, &elves), Some((0, 2)));
    assert!(do_round(&mut elves, &mut direction));
    assert_eq!(direction, Direction::South);
    let mut sorted = elves.clone();
    sorted.sort();
    assert_eq!(sorted, vec![(0, 2), (0, 3), (2, 2), (3, 3), (4, 2)]);
    assert_eq!(Direction::East.next(), Direction::North);
    assert_eq!(Direction::West.of((3, 3)), (3, 2));
}
