use aoc2022::day25::{part1, BalancedQuinary, Quint};

const EXAMPLE: &str = "1=-0-2\n\
                       12111\n\
                       2=0=\n\
                       21\n\
                       2=01\n\
                       111\n\
                       20012\n\
                       112\n\
                       1=-1=\n\
                       1-12\n\
                       12\n\
                       1=\n\
                       122\n";

#[test]
fn day25_test_part1() {
    assert_eq!(part1(&EXAMPLE), "2=-1=0");
}

fn text(n: &BalancedQuinary) -> String {
    n.to_chars().into_iter().collect()
}

#[test]
fn digits_add() {
    assert_eq!(Quint::Two.add(Quint::Two), (Quint::MinusOne, Quint::One));
    assert_eq!(Quint::MinusTwo.add(Quint::MinusOne), (Quint::Two, Quint::MinusOne));
    assert_eq!(Quint::One.add(Quint::MinusOne), (Quint::Zero, Quint::Zero));
    let a = BalancedQuinary::from_str(b"1=").unwrap();
    let b = BalancedQuinary::from_str(b"2").unwrap();
    assert_eq!(text(&a.add(b)), "10");
    let c = BalancedQuinary::from_str(b"2=").unwrap();
    assert_eq!(text(&BalancedQuinary::zero().add(c)), "2=");
    assert!(BalancedQuinary::from_str(b"13").is_none());
    assert!(BalancedQuinary::zero().is_zero());
    assert_eq!(part1(""), "0");
    assert_eq!(part1("x\n2\n"), "2");
    // 3 and -3 cancel; the sum is written without leading zeros.
    assert_eq!(part1("1=\n-2\n"), "0");
    assert_eq!(part1("1=\n-1\n"), "-");
}
