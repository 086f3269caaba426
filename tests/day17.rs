use aoc2022::day17::{base_pieces, part1, part2, tower_height, Board, Piece};

const EXAMPLE: &str = ">>><<><>><<<>><>>><<<>>><<<><<<>><>><<>>";

#[test]
fn day17_test_part1() {
    assert_eq!(part1(EXAMPLE), 3068);
}

#[test]
fn day17_test_part2() {
    assert_eq!(part2(EXAMPLE), 1514285714288);
}

#[test]
fn first_rocks() {
    assert_eq!(tower_height(EXAMPLE.as_bytes(), 1), 1);
    assert_eq!(tower_height(EXAMPLE.as_bytes(), 2), 4);
    assert_eq!(tower_height(EXAMPLE.as_bytes(), 10), 17);
    assert_eq!(tower_height(b"<\n", 0), 0);
}

#[test]
fn pieces_shift_within_walls() {
    let pieces = base_pieces();
    let bar = &pieces[0];
    assert_eq!(bar.shifted_left().data, vec![0b0111100]);
    assert_eq!(bar.shifted_left().shifted_left().data, vec![0b1111000]);
    assert_eq!(bar.shifted_left().shifted_left().shifted_left().data, vec![0b1111000]);
    assert_eq!(bar.shifted_right().shifted_right().shifted_right().data, vec![0b0001111]);
    assert!(bar.filled(0, 1));
    assert!(!bar.filled(0, 0));
    let mut board = Board { data: vec![] };
    board.add_piece(&Piece { data: vec![0b0000001] }, 0);
    assert!(!board.can_place(&Piece { data: vec![0b0000001] }, 0));
    assert!(board.can_place(&Piece { data: vec![0b0000010] }, 0));
    assert_eq!(board.height(), 1);
}
