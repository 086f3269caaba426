use aoc2022::day8::{generator, part1, part2};

const EXAMPLE: &str = "30373\n\
                       25512\n\
                       65332\n\
                       33549\n\
                       35390\n";

#[test]
fn day8_test_part1() {
    let input = generator(EXAMPLE).unwrap();
    assert_eq!(part1(&input), 21);
}

#[test]
fn day8_test_part2() {
    let input = generator(EXAMPLE).unwrap();
    assert_eq!(part2(&input), 8);
}

#[test]
fn views_walk_outward() {
    let g = generator(EXAMPLE).unwrap();
    assert_eq!(g.at(3, 3), 4);
    assert_eq!(g.above(3, 3), vec![3, 1, 7]);
    assert_eq!(g.below(3, 3), vec![9]);
    assert_eq!(g.left(3, 3), vec![5, 3, 3]);
    assert_eq!(g.right(3, 3), vec![9]);
    assert!(generator("12\n3\n").is_none());
    assert!(generator("1a\n").is_none());
    assert!(generator("").is_none());
}

#[test]
fn single_tree() {
    let g = generator("7\n").unwrap();
    assert_eq!(part1(&g), 1);
    assert_eq!(part2(&g), 0);
}
