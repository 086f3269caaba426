use aoc2022::day18::{generator, neighbors, part1, part2};

const EXAMPLE: &str = "2,2,2\n\
                       1,2,2\n\
                       3,2,2\n\
                       2,1,2\n\
                       2,3,2\n\
                       2,2,1\n\
                       2,2,3\n\
                       2,2,4\n\
                       2,2,6\n\
                       1,2,5\n\
                       3,2,5\n\
                       2,1,5\n\
                       2,3,5";

#[test]
fn day18_test_part1() {
    let input = generator(EXAMPLE).unwrap();
    assert_eq!(part1(&input), 64);
}

#[test]
fn day18_test_part2() {
    let input = generator(EXAMPLE).unwrap();
    assert_eq!(part2(&input), 58);
}

#[test]
fn hollow_cube_hides_its_inside() {
    let mut cubes = Vec::new();
    for x in 0..3 {
        for y in 0..3 {
            for z in 0..3 {
                if (x, y, z) != (1, 1, 1) {
                    cubes.push((x, y, z));
                }
            }
        }
    }
    assert_eq!(part1(&cubes), 54 + 6);
    assert_eq!(part2(&cubes), 54);
    assert_eq!(part2(&vec![(0, 0, 0)]), 6);
}

#[test]
fn cubes_parse_once() {
    let cubes = generator("1,1,1\n2,1,1\n1,1,1\n-3,0,7\n").unwrap();
    assert_eq!(cubes, vec![(1, 1, 1), (2, 1, 1), (-3, 0, 7)]);
    assert_eq!(part1(&cubes[..2].to_vec()), 10);
    assert!(generator("1,1\n").is_none());
    assert!(generator("1,1,x\n").is_none());
    assert_eq!(neighbors(&(0, 0, 0))[5], (0, 0, 1));
}
