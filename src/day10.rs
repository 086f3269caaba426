//! A two-instruction CPU: the value of register `x` during each cycle, signal strengths,
//! and the pixels it draws.
use vstd::prelude::*;
use crate::text::{find_byte, first_index, parse_i32, signed_number, slice_of, str_lines, text_lines, views};

verus! {

/// What one program line does: `noop` (`None`) or `addx v` (`Some(v)`); `None` of the
/// outer option when the line is neither.
pub open spec fn instruction(line: Seq<u8>) -> Option<Option<int>> {
    if line == seq![110u8, 111, 111, 112] {
        Some(None)
    } else if line.len() > 5 && line.subrange(0, 5) == seq![97u8, 100, 100, 120, 32] {
        match signed_number(line.subrange(5, line.len() as int)) {
            Some(v) => Some(Some(v)),
            None => None,
        }
    } else {
        None
    }
}

/// The value of `x` during each cycle of the program `lines`, and its value after it; `x`
/// starts at 1. `None` when a line is not an instruction or `x` leaves the `i32` range.
pub open spec fn run(lines: Seq<Seq<u8>>) -> Option<(Seq<int>, int)>
    decreases lines.len(),
{
    if lines.len() == 0 {
        Some((Seq::empty(), 1))
    } else {
        match run(lines.drop_last()) {
            Some((xs, x)) => match instruction(lines.last()) {
                Some(None) => Some((xs.push(x), x)),
                Some(Some(v)) => if i32::MIN <= x + v <= i32::MAX {
                    Some((xs.push(x).push(x), x + v))
                } else {
                    None
                },
                None => None,
            },
            None => None,
        }
    }
}

proof fn lemma_run_none(all: Seq<Seq<u8>>, i: int)
    requires
        0 <= i <= all.len(),
        run(all.subrange(0, i)) is None,
    ensures
        run(all) is None,
    decreases all.len() - i,
{
    if i < all.len() {
        assert(all.subrange(0, i + 1).drop_last() =~= all.subrange(0, i));
        lemma_run_none(all, i + 1);
    } else {
        assert(all.subrange(0, i) =~= all);
    }
}

fn parse_instruction(line: &Vec<u8>) -> (r: Option<Option<i32>>)
    ensures
        match r {
            Some(None) => instruction(line@) == Some(None::<int>),
            Some(Some(v)) => instruction(line@) == Some(Some(v as int)),
            None => instruction(line@) is None,
        },
{
    let n = line.len();
    if n == 4 && line[0] == 110 && line[1] == 111 && line[2] == 111 && line[3] == 112 {
        assert(line@ =~= seq![110u8, 111, 111, 112]);
        return Some(None);
    }
    assert(line@ != seq![110u8, 111, 111, 112]);
    if n > 5 && line[0] == 97 && line[1] == 100 && line[2] == 100 && line[3] == 120 && line[4] == 32 {
        assert(line@.subrange(0, 5) =~= seq![97u8, 100, 100, 120, 32]);
        let rest = slice_of(line.as_slice(), 5, n);
        match parse_i32(rest.as_slice()) {
            Some(v) => Some(Some(v)),
            None => None,
        }
    } else {
        proof {
            if n > 5 {
                assert(line@.subrange(0, 5)[0] == line@[0]);
                assert(line@.subrange(0, 5)[1] == line@[1]);
                assert(line@.subrange(0, 5)[2] == line@[2]);
                assert(line@.subrange(0, 5)[3] == line@[3]);
                assert(line@.subrange(0, 5)[4] == line@[4]);
                assert(line@.subrange(0, 5) != seq![97u8, 100, 100, 120, 32]) by {
                    if line@.subrange(0, 5) == seq![97u8, 100, 100, 120, 32] {
                        assert(seq![97u8, 100, 100, 120, 32][0] == 97);
                        assert(seq![97u8, 100, 100, 120, 32][1] == 100);
                        assert(seq![97u8, 100, 100, 120, 32][2] == 100);
                        assert(seq![97u8, 100, 100, 120, 32][3] == 120);
                        assert(seq![97u8, 100, 100, 120, 32][4] == 32);
                    }
                }
            }
        }
        None
    }
}

/// The value of `x` during each cycle of the program `input`; `None` when a line is not
/// `noop` or `addx v`, or `x` leaves the `i32` range.
pub fn generator(input: &str) -> (r: Option<Vec<i32>>)
    ensures
        match r {
            Some(v) => run(text_lines(input)) matches Some((xs, _)) && v@.map_values(|x: i32| x as int) == xs,
            None => run(text_lines(input)) is None,
        },
{
    let rows = str_lines(input);
    let ghost all = views(rows@);
    let mut state: Vec<i32> = Vec::new();
    let mut x: i32 = 1;
    let mut i: usize = 0;
    while i < rows.len()
        invariant
            all == views(rows@),
            all == text_lines(input),
            i <= all.len(),
            run(all.subrange(0, i as int)) == Some((state@.map_values(|x: i32| x as int), x as int)),
        decreases all.len() - i,
    {
        assert(all.subrange(0, i + 1).drop_last() =~= all.subrange(0, i as int));
        assert(all[i as int] == rows@[i as int]@);
        let ghost before = state@;
        match parse_instruction(&rows[i]) {
            Some(None) => {
                state.push(x);
                assert(state@.map_values(|x: i32| x as int) =~= before.map_values(|x: i32| x as int).push(x as int));
            },
            Some(Some(v)) => {
                state.push(x);
                state.push(x);
                assert(state@.map_values(|x: i32| x as int) =~= before.map_values(|x: i32| x as int).push(x as int).push(
                    x as int,
                ));
                let sum = x as i64 + v as i64;
                if sum < i32::MIN as i64 || sum > i32::MAX as i64 {
                    proof {
                        lemma_run_none(all, i + 1);
                    }
                    return None;
                }
                x = sum as i32;
            },
            None => {
                proof {
                    lemma_run_none(all, i + 1);
                }
                return None;
            },
        }
        i += 1;
    }
    assert(all.subrange(0, all.len() as int) =~= all);
    Some(state)
}

/// The sum of `cycle * x` over the first `k` sampled cycles 20, 60, 100, ...
pub open spec fn signal_sum(xs: Seq<i32>, k: int) -> int
    decreases k,
{
    if k <= 0 {
        0
    } else {
        signal_sum(xs, k - 1) + (40 * k - 20) * xs[40 * k - 21]
    }
}

/// How many of the cycles 20, 60, 100, ... the values `xs` reach.
pub open spec fn samples(xs: Seq<i32>) -> int {
    if xs.len() < 20 { 0 } else { (xs.len() - 20) / 40 + 1 }
}

/// The sum of the signal strengths `cycle * x` at cycles 20, 60, 100, ...
pub fn part1(input: &[i32]) -> (r: i32)
    requires
        forall|k: int| 0 <= k <= samples(input@) ==> i32::MIN <= #[trigger] signal_sum(input@, k) <= i32::MAX,
        forall|k: int| 1 <= k <= samples(input@) ==> i32::MIN <= (40 * k - 20) * #[trigger] input@[40 * k - 21] <= i32::MAX,
    ensures
        r == signal_sum(input@, samples(input@)),
{
    let n: usize = if input.len() < 20 { 0 } else { (input.len() - 20) / 40 + 1 };
    let mut total: i32 = 0;
    let mut k: usize = 0;
    while k < n
        invariant
            n == samples(input@),
            k <= n,
            total == signal_sum(input@, k as int),
            forall|j: int| 0 <= j <= samples(input@) ==> i32::MIN <= #[trigger] signal_sum(input@, j) <= i32::MAX,
            forall|j: int| 1 <= j <= samples(input@) ==> i32::MIN <= (40 * j - 20) * #[trigger] input@[40 * j - 21] <= i32::MAX,
        decreases n - k,
    {
        let ghost j = k + 1;
        let len = input.len();
        assert(40 * k + 19 < len) by (nonlinear_arith)
            requires
                k < n,
                n == if len < 20 { 0 } else { (len - 20) / 40 + 1 },
        ;
        assert(i32::MIN <= (40 * j - 20) * input@[40 * j - 21] <= i32::MAX);
        assert(i32::MIN <= signal_sum(input@, j) <= i32::MAX);
        let idx: usize = 40 * k + 19;
        let term = ((idx + 1) as i128) * (input[idx] as i128);
        assert(signal_sum(input@, j) == total + term);
        total = (total as i128 + term) as i32;
        k += 1;
    }
    total
}

/// Whether the pixel of cycle `c` (1-based) is lit: its column is within 1 of `x`.
pub open spec fn lit(c: int, x: int) -> bool {
    -1 <= x - (c - 1) % 40 <= 1
}

/// The screen: one row of 40 pixels per 40 cycles (the last row may be shorter), `#` for a
/// lit pixel and a space for a dark one.
pub fn screen(input: &[i32]) -> (r: Vec<Vec<char>>)
    ensures
        r@.len() == (input@.len() + 39) / 40,
        forall|i: int, j: int|
            0 <= i < r@.len() && 0 <= j < r@[i]@.len() ==> 40 * i + j < input@.len() && (#[trigger] r@[i]@[j] == if lit(
                40 * i + j + 1,
                input@[40 * i + j] as int,
            ) {
                '#'
            } else {
                ' '
            }),
        forall|i: int| 0 <= i < r@.len() ==> (#[trigger] r@[i]@).len() == if 40 * i + 40 <= input@.len() {
            40
        } else {
            input@.len() - 40 * i
        },
{
    let mut rows: Vec<Vec<char>> = Vec::new();
    let mut row: Vec<char> = Vec::new();
    let mut c: usize = 0;
    while c < input.len()
        invariant
            c <= input@.len(),
            rows@.len() == c / 40,
            row@.len() == c % 40,
            forall|j: int| 0 <= j < row@.len() ==> (#[trigger] row@[j] == if lit(40 * (c / 40) + j + 1, input@[40 * (c / 40) + j] as int) {
                '#'
            } else {
                ' '
            }),
            forall|i: int, j: int|
                0 <= i < rows@.len() && 0 <= j < rows@[i]@.len() ==> (#[trigger] rows@[i]@[j] == if lit(
                    40 * i + j + 1,
                    input@[40 * i + j] as int,
                ) {
                    '#'
                } else {
                    ' '
                }),
            forall|i: int| 0 <= i < rows@.len() ==> (#[trigger] rows@[i]@).len() == 40,
        decreases input@.len() - c,
    {
        let pixel_x = (c % 40) as i64;
        let x = input[c] as i64;
        let on = x - pixel_x >= -1 && x - pixel_x <= 1;
        row.push(if on { '#' } else { ' ' });
        if c % 40 == 39 {
            rows.push(row);
            row = Vec::new();
        }
        c += 1;
    }
    if row.len() > 0 {
        rows.push(row);
    }
    rows
}

} // verus!
