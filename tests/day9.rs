use aoc2022::day9::{generator, part1, part2, Direction, Point, Rope, Step};

const SMALL_EXAMPLE: &str = "R 4\n\
                             U 4\n\
                             L 3\n\
                             D 1\n\
                             R 4\n\
                             D 1\n\
                             L 5\n\
                             R 2";

const LARGE_EXAMPLE: &str = "R 5\n\
                             U 8\n\
                             L 8\n\
                             D 3\n\
                             R 17\n\
                             D 10\n\
                             L 25\n\
                             U 20";

#[test]
fn day9_test_part1() {
    let small_input = generator(SMALL_EXAMPLE).unwrap();
    assert_eq!(part1(&small_input), 13);
}

#[test]
fn day9_test_part2() {
    let small_input = generator(SMALL_EXAMPLE).unwrap();
    assert_eq!(part2(&small_input), 1);

    let large_input = generator(LARGE_EXAMPLE).unwrap();
    assert_eq!(part2(&large_input), 36);
}

#[test]
fn steps_parse() {
    let steps = generator("U 3\nL 12\n").unwrap();
    assert_eq!(steps, vec![Step { direction: Direction::Up, count: 3 }, Step { direction: Direction::Left, count: 12 }]);
    assert!(generator("X 3").is_none());
    assert!(generator("U").is_none());
    assert_eq!(part1(&vec![]), 0);
}

#[test]
fn knots_follow() {
    let mut p = Point { x: 0, y: 0 };
    p.move_towards(Point { x: 2, y: 0 });
    assert_eq!(p, Point { x: 1, y: 0 });
    p.move_towards(Point { x: 2, y: 2 });
    assert_eq!(p, Point { x: 2, y: 1 });
    p.move_towards(Point { x: 3, y: 2 });
    assert_eq!(p, Point { x: 2, y: 1 });
    let mut r = Rope::new(3);
    r.pull(&Direction::Right);
    r.pull(&Direction::Right);
    assert_eq!(r.knots, vec![Point { x: 2, y: 0 }, Point { x: 1, y: 0 }, Point { x: 0, y: 0 }]);
}
