//! Rock paper scissors scores. Plays are 0 (rock), 1 (paper) and 2 (scissors).
use vstd::prelude::*;
use crate::text::{str_lines, text_lines, views};

verus! {

/// The play that beats `other`.
pub open spec fn beats_spec(other: int) -> int {
    (other + 1) % 3
}

/// The play that loses to `other`.
pub open spec fn loses_to_spec(other: int) -> int {
    (other + 2) % 3
}

/// Returns the play that beats `other`.
pub fn beats(other: u32) -> (r: u32)
    requires
        other < 3,
    ensures
        r == beats_spec(other as int),
{
    (other + 1) % 3
}

/// Returns the play that loses to `other`.
pub fn loses_to(other: u32) -> (r: u32)
    requires
        other < 3,
    ensures
        r == loses_to_spec(other as int),
{
    (other + 2) % 3
}

/// A strategy line: the opponent's play `A`, `B` or `C`, a space, and a second letter
/// `X`, `Y` or `Z`.
pub open spec fn is_round(line: Seq<u8>) -> bool {
    line.len() >= 3 && 65 <= line[0] <= 67 && 88 <= line[2] <= 90
}

/// The score of a round when the second letter is my play: the play's value plus one, and
/// 3 for a draw or 6 for a win.
pub open spec fn score1(line: Seq<u8>) -> int {
    let opp = line[0] - 65;
    let me = line[2] - 88;
    if me == opp {
        4 + me
    } else if me == beats_spec(opp) {
        7 + me
    } else {
        1 + me
    }
}

/// The score of a round when the second letter is the outcome: `X` lose, `Y` draw, `Z` win.
pub open spec fn score2(line: Seq<u8>) -> int {
    let opp = line[0] - 65;
    if line[2] == 88 {
        1 + loses_to_spec(opp)
    } else if line[2] == 89 {
        4 + opp
    } else {
        7 + beats_spec(opp)
    }
}

/// The total of `score1` (`second == false`) or `score2` (`second == true`) over `rounds`.
pub open spec fn total(rounds: Seq<Seq<u8>>, second: bool) -> int
    decreases rounds.len(),
{
    if rounds.len() == 0 {
        0
    } else {
        total(rounds.drop_last(), second) + if second { score2(rounds.last()) } else { score1(rounds.last()) }
    }
}

proof fn lemma_total_grows(rounds: Seq<Seq<u8>>, second: bool, i: int)
    requires
        0 <= i <= rounds.len(),
        forall|k: int| 0 <= k < rounds.len() ==> is_round(#[trigger] rounds[k]),
    ensures
        0 <= total(rounds.subrange(0, i), second) <= total(rounds, second),
    decreases rounds.len() - i,
{
    if i < rounds.len() {
        lemma_total_grows(rounds, second, i + 1);
        assert(rounds.subrange(0, i + 1).drop_last() =~= rounds.subrange(0, i));
        assert(is_round(rounds[i]));
    } else {
        assert(rounds.subrange(0, i) =~= rounds);
    }
    lemma_total_nonneg(rounds.subrange(0, i), second);
}

proof fn lemma_total_nonneg(rounds: Seq<Seq<u8>>, second: bool)
    requires
        forall|k: int| 0 <= k < rounds.len() ==> is_round(#[trigger] rounds[k]),
    ensures
        total(rounds, second) >= 0,
    decreases rounds.len(),
{
    if rounds.len() > 0 {
        assert(is_round(rounds[rounds.len() - 1]));
        lemma_total_nonneg(rounds.drop_last(), second);
    }
}

fn round_score(line: &Vec<u8>, second: bool) -> (r: u32)
    requires
        is_round(line@),
    ensures
        r == if second { score2(line@) } else { score1(line@) },
{
    let opp_choice = (line[0] - 65) as u32;
    if second {
        if line[2] == 88 {
            1 + loses_to(opp_choice)
        } else if line[2] == 89 {
            4 + opp_choice
        } else {
            7 + beats(opp_choice)
        }
    } else {
        let my_choice = (line[2] - 88) as u32;
        if my_choice == opp_choice {
            4 + my_choice
        } else if my_choice == beats(opp_choice) {
            7 + my_choice
        } else {
            1 + my_choice
        }
    }
}

fn total_score(input: &str, second: bool) -> (r: u32)
    requires
        forall|k: int| 0 <= k < text_lines(input).len() ==> is_round(#[trigger] text_lines(input)[k]),
        total(text_lines(input), second) <= u32::MAX,
    ensures
        r == total(text_lines(input), second),
{
    let rounds = str_lines(input);
    let ghost all = views(rounds@);
    let mut sum: u32 = 0;
    let mut i: usize = 0;
    while i < rounds.len()
        invariant
            all == views(rounds@),
            all == text_lines(input),
            i <= all.len(),
            forall|k: int| 0 <= k < all.len() ==> is_round(#[trigger] all[k]),
            total(all, second) <= u32::MAX,
            sum == total(all.subrange(0, i as int), second),
        decreases all.len() - i,
    {
        assert(all[i as int] == rounds@[i as int]@);
        let s = round_score(&rounds[i], second);
        proof {
            lemma_total_grows(all, second, i + 1);
            assert(all.subrange(0, i + 1).drop_last() =~= all.subrange(0, i as int));
        }
        sum = sum + s;
        i += 1;
    }
    assert(all.subrange(0, all.len() as int) =~= all);
    sum
}

/// The total score when each line's second letter is my play.
pub fn part1(input: &str) -> (r: u32)
    requires
        forall|k: int| 0 <= k < text_lines(input).len() ==> is_round(#[trigger] text_lines(input)[k]),
        total(text_lines(input), false) <= u32::MAX,
    ensures
        r == total(text_lines(input), false),
{
    total_score(input, false)
}

/// The total score when each line's second letter is the outcome to play for.
pub fn part2(input: &str) -> (r: u32)
    requires
        forall|k: int| 0 <= k < text_lines(input).len() ==> is_round(#[trigger] text_lines(input)[k]),
        total(text_lines(input), true) <= u32::MAX,
    ensures
        r == total(text_lines(input), true),
{
    total_score(input, true)
}

} // verus!
