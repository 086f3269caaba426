use aoc2022::day7::{generator, part1, part2, Node};

const EXAMPLE: &str = "$ cd /\n\
                       $ ls\n\
                       dir a\n\
                       14848514 b.txt\n\
                       8504156 c.dat\n\
                       dir d\n\
                       $ cd a\n\
                       $ ls\n\
                       dir e\n\
                       29116 f\n\
                       2557 g\n\
                       62596 h.lst\n\
                       $ cd e\n\
                       $ ls\n\
                       584 i\n\
                       $ cd ..\n\
                       $ cd ..\n\
                       $ cd d\n\
                       $ ls\n\
                       4060174 j\n\
                       8033020 d.log\n\
                       5626152 d.ext\n\
                       7214296 k";

#[test]
fn day7_test_part1() {
    let input = generator(EXAMPLE).unwrap();
    assert_eq!(part1(&input), 95437);
}

#[test]
fn day7_test_part2() {
    let input = generator(EXAMPLE).unwrap();
    assert_eq!(part2(&input), 24933642);
}

#[test]
fn sessions_build_entries() {
    let fs = generator("$ cd /\n$ ls\ndir x\n10 y\n$ cd x\n$ ls\n5 z\n").unwrap();
    assert_eq!(fs.len(), 4);
    assert_eq!(fs[1].node, Node::Directory);
    assert_eq!(fs[2].node, Node::File(10));
    assert_eq!((fs[3].parent, fs[3].node), (1, Node::File(5)));
    assert_eq!(part1(&fs), 15 + 5);
    assert!(generator("dir x\n").is_none());
    assert!(generator("$ cd nowhere\n").is_none());
    assert!(generator("$ ls\n1 a\n2 a\n").is_none());
    assert!(generator("$ ls\n1 a\n$ cd a\n").is_none());
    assert!(generator("$ rm x\n").is_none());
}
