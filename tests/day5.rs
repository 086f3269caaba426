use aoc2022::day5::{generator, part1, part2, State, Step};

const EXAMPLE: &str = "    [D]    \n\
                       [N] [C]    \n\
                       [Z] [M] [P]\n\
                        1   2   3 \n\
                       \n\
                       move 1 from 2 to 1\n\
                       move 3 from 1 to 3\n\
                       move 2 from 2 to 1\n\
                       move 1 from 1 to 2";

#[test]
fn day5_test_part1() {
    let input = generator(EXAMPLE).unwrap();
    assert_eq!(part1(&input), "CMZ".to_string());
}

#[test]
fn day5_test_part2() {
    let input = generator(EXAMPLE).unwrap();
    assert_eq!(part2(&input), String::from("MCD"));
}

#[test]
fn drawing_and_steps_parse() {
    let (state, steps) = generator(EXAMPLE).unwrap();
    assert_eq!(state.stacks, vec![vec![b'Z', b'N'], vec![b'M', b'C', b'D'], vec![b'P']]);
    assert_eq!(steps[1], Step { count: 3, from: 0, to: 2 });
    assert!(generator("[A]\n 1\nmove 1 from 0 to 1").is_none());
    assert!(generator("[A]\n 1\nmove x from 1 to 1").is_none());
    assert!(generator("A\n 1\n").is_none());
}

#[test]
fn moves_keep_or_reverse_order() {
    let mut st = State { stacks: vec![vec![b'A', b'B', b'C'], vec![]] };
    st.apply(&Step { count: 2, from: 0, to: 1 }, true);
    assert_eq!(st.stacks, vec![vec![b'A'], vec![b'C', b'B']]);
    st.apply(&Step { count: 2, from: 1, to: 0 }, false);
    assert_eq!(st.stacks, vec![vec![b'A', b'C', b'B'], vec![]]);
}
