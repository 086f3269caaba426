use aoc2022::day10::{generator, part1, screen};

#[test]
fn program_values() {
    assert_eq!(generator("noop\naddx 3\naddx -5\n").unwrap(), vec![1, 1, 1, 4, 4]);
    assert!(generator("jump 3").is_none());
    assert!(generator("addx x").is_none());
    assert_eq!(generator("").unwrap(), Vec::<i32>::new());
}

#[test]
fn signal_strengths() {
    let mut program = String::new();
    for _ in 0..19 {
        program.push_str("noop\n");
    }
    program.push_str("addx 5\n");
    for _ in 0..40 {
        program.push_str("noop\n");
    }
    let xs = generator(&program).unwrap();
    assert_eq!(xs.len(), 61);
    // Cycle 20 sees x = 1, cycle 60 sees x = 6.
    assert_eq!(part1(&xs), 20 + 60 * 6);
    assert_eq!(part1(&xs[..19]), 0);
}

#[test]
fn screen_rows() {
    let xs = vec![1; 41];
    let rows = screen(&xs);
    assert_eq!(rows.len(), 2);
    assert_eq!(rows[0].len(), 40);
    assert_eq!(rows[1], vec!['#']);
    assert_eq!(&rows[0][..4], &['#', '#', '#', ' ']);
}
