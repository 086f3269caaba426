use aoc2022::day14::{generator, part1, part2, BoundingBox, Cave, Material};

const EXAMPLE: &str = "498,4 -> 498,6 -> 496,6\n\
                       503,4 -> 502,4 -> 502,9 -> 494,9";

#[test]
fn day14_test_part1() {
    let input = generator(EXAMPLE).unwrap();
    assert_eq!(part1(&input), 24);
}

#[test]
fn day14_test_part2() {
    let input = generator(EXAMPLE).unwrap();
    assert_eq!(part2(&input), 93);
}

#[test]
fn walls_and_sand() {
    let cave = generator(EXAMPLE).unwrap();
    assert_eq!(cave.bounds, BoundingBox { x_min: 494, x_max: 503, y_min: 0, y_max: 9 });
    assert_eq!(cave.get(498, 5), Material::Rock);
    assert_eq!(cave.get(497, 6), Material::Rock);
    assert_eq!(cave.get(500, 5), Material::Air);
    let mut c = cave.clone_cave();
    assert_eq!(c.add_sand(), Some((500, 8)));
    assert_eq!(c.get(500, 8), Material::Sand);
    assert_eq!(c.add_sand(), Some((499, 8)));
    assert!(generator("498,4 - 498,6").is_none());
    assert!(generator("498,4 -> x,6").is_none());
    let mut empty = Cave::new();
    assert_eq!(empty.add_sand(), None);
    empty.add_wall(500, 2);
    assert_eq!(empty.bounds, BoundingBox { x_min: 500, x_max: 500, y_min: 0, y_max: 2 });
    let mut b = BoundingBox { x_min: 0, x_max: 0, y_min: 0, y_max: 0 };
    b.extend(-3, 4);
    assert!(b.contains(-3, 4) && !b.contains(1, 0));
}
