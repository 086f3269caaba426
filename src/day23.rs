//! Elves spreading out on an open plain: each round every crowded elf proposes a step in
//! the first free direction of a rotating list, and moves unless another elf proposed the
//! same cell.
use vstd::prelude::*;
use itertools::Itertools;
use crate::text::{str_lines, text_lines, views};

verus! {

/// An elf's cell as (row, column).
pub type Point = (i32, i32);

/// The largest coordinate, in absolute value, of an elf on the map that is read.
pub const MAX_START: i32 = 10_000;

#[derive(Clone, Copy, Debug, PartialEq, Eq)]
pub enum Direction {
    North,
    South,
    West,
    East,
}

pub open spec fn pi(p: Point) -> (int, int) {
    (p.0 as int, p.1 as int)
}

pub open spec fn next_spec(d: Direction) -> Direction {
    match d {
        Direction::North => Direction::South,
        Direction::South => Direction::West,
        Direction::West => Direction::East,
        Direction::East => Direction::North,
    }
}

/// The cell one step from `p` in direction `d` (north is row - 1).
pub open spec fn of_spec(d: Direction, p: (int, int)) -> (int, int) {
    match d {
        Direction::North => (p.0 - 1, p.1),
        Direction::South => (p.0 + 1, p.1),
        Direction::West => (p.0, p.1 - 1),
        Direction::East => (p.0, p.1 + 1),
    }
}

/// Some elf of `es` stands on `q`.
pub open spec fn occ(es: Seq<Point>, q: (int, int)) -> bool {
    exists|k: int| 0 <= k < es.len() && pi(#[trigger] es[k]) == q
}

pub open spec fn occ_n(es: Seq<Point>, q: (int, int)) -> int {
    if occ(es, q) { 1 } else { 0 }
}

/// How many of the nine cells of the square around `p` (itself included) hold an elf.
pub open spec fn around(es: Seq<Point>, p: (int, int)) -> int {
    occ_n(es, (p.0 - 1, p.1 - 1)) + occ_n(es, (p.0 - 1, p.1)) + occ_n(es, (p.0 - 1, p.1 + 1)) + occ_n(
        es,
        (p.0, p.1 - 1),
    ) + occ_n(es, p) + occ_n(es, (p.0, p.1 + 1)) + occ_n(es, (p.0 + 1, p.1 - 1)) + occ_n(es, (p.0 + 1, p.1))
        + occ_n(es, (p.0 + 1, p.1 + 1))
}

/// The three cells on side `d` of `p` are free.
pub open spec fn free_side(es: Seq<Point>, p: (int, int), d: Direction) -> bool {
    match d {
        Direction::North => !occ(es, (p.0 - 1, p.1 - 1)) && !occ(es, (p.0 - 1, p.1)) && !occ(es, (p.0 - 1, p.1 + 1)),
        Direction::South => !occ(es, (p.0 + 1, p.1 - 1)) && !occ(es, (p.0 + 1, p.1)) && !occ(es, (p.0 + 1, p.1 + 1)),
        Direction::West => !occ(es, (p.0 - 1, p.1 - 1)) && !occ(es, (p.0, p.1 - 1)) && !occ(es, (p.0 + 1, p.1 - 1)),
        Direction::East => !occ(es, (p.0 - 1, p.1 + 1)) && !occ(es, (p.0, p.1 + 1)) && !occ(es, (p.0 + 1, p.1 + 1)),
    }
}

/// The step of the elf on `p`, trying `d` and the three directions after it in turn;
/// `None` when no other elf is near or no side is free.
pub open spec fn proposal(es: Seq<Point>, p: (int, int), d: Direction) -> Option<(int, int)> {
    let d1 = next_spec(d);
    let d2 = next_spec(d1);
    let d3 = next_spec(d2);
    if around(es, p) <= 1 {
        None
    } else if free_side(es, p, d) {
        Some(of_spec(d, p))
    } else if free_side(es, p, d1) {
        Some(of_spec(d1, p))
    } else if free_side(es, p, d2) {
        Some(of_spec(d2, p))
    } else if free_side(es, p, d3) {
        Some(of_spec(d3, p))
    } else {
        None
    }
}

/// How many of the first `n` elves propose `q`.
pub open spec fn proposers(es: Seq<Point>, d: Direction, q: (int, int), n: int) -> int
    decreases n,
{
    if n <= 0 {
        0
    } else {
        proposers(es, d, q, n - 1) + if proposal(es, pi(es[n - 1]), d) == Some(q) { 1int } else { 0int }
    }
}

/// Where elf `k` is after the round: its proposal when no other elf proposed the same cell.
pub open spec fn moved_to(es: Seq<Point>, d: Direction, k: int) -> (int, int) {
    match proposal(es, pi(es[k]), d) {
        Some(q) => if proposers(es, d, q, es.len() as int) == 1 { q } else { pi(es[k]) },
        None => pi(es[k]),
    }
}

/// Some elf moves in the round.
pub open spec fn any_moves(es: Seq<Point>, d: Direction) -> bool {
    exists|k: int| 0 <= k < es.len() && #[trigger] moved_to(es, d, k) != pi(es[k])
}

/// Every coordinate is at most `b` in absolute value.
pub open spec fn bounded(es: Seq<Point>, b: int) -> bool {
    forall|k: int| 0 <= k < es.len() ==> -b <= (#[trigger] es[k]).0 <= b && -b <= es[k].1 <= b
}

impl Direction {
    /// The direction tried after this one.
    pub fn next(&self) -> (r: Direction)
        ensures
            r == next_spec(*self),
    {
        match self {
            Direction::North => Direction::South,
            Direction::South => Direction::West,
            Direction::West => Direction::East,
            Direction::East => Direction::North,
        }
    }

    /// The cell one step from `point` in this direction.
    pub fn of(&self, point: Point) -> (r: Point)
        requires
            i32::MIN < point.0 < i32::MAX,
            i32::MIN < point.1 < i32::MAX,
        ensures
            pi(r) == of_spec(*self, pi(point)),
    {
        match self {
            Direction::North => (point.0 - 1, point.1),
            Direction::South => (point.0 + 1, point.1),
            Direction::West => (point.0, point.1 - 1),
            Direction::East => (point.0, point.1 + 1),
        }
    }
}

fn occupied(elves: &Vec<Point>, q: (i64, i64)) -> (r: bool)
    ensures
        r == occ(elves@, (q.0 as int, q.1 as int)),
{
    let mut k: usize = 0;
    while k < elves.len()
        invariant
            k <= elves@.len(),
            forall|j: int| 0 <= j < k ==> pi(#[trigger] elves@[j]) != (q.0 as int, q.1 as int),
        decreases elves@.len() - k,
    {
        if elves[k].0 as i64 == q.0 && elves[k].1 as i64 == q.1 {
            assert(pi(elves@[k as int]) == (q.0 as int, q.1 as int));
            return true;
        }
        k += 1;
    }
    false
}

/// The offsets of the square around a cell, row major.
pub open spec fn square() -> Seq<(i32, i32)> {
    seq![
        (-1i32, -1i32), (-1i32, 0i32), (-1i32, 1i32), (0i32, -1i32), (0i32, 0i32), (0i32, 1i32), (1i32, -1i32),
        (1i32, 0i32), (1i32, 1i32)
    ]
}

/// Relies on `itertools::Itertools::cartesian_product`: the pairs of two ranges, first
/// component major, in order.
#[verifier::external_body]
fn square_offsets() -> (r: Vec<(i32, i32)>)
    ensures
        r@ == square(),
{
    (-1..=1).cartesian_product(-1..=1).collect()
}

/// Whether the square around `point` holds an elf other than one on `point` itself:
/// more than one of its nine cells is occupied.
pub fn has_neighbors(point: Point, elves: &Vec<Point>) -> (r: bool)
    ensures
        r == (around(elves@, pi(point)) > 1),
{
    let offsets = square_offsets();
    let mut count: usize = 0;
    let mut i: usize = 0;
    let ghost p = pi(point);
    let ghost terms = seq![
        occ_n(elves@, (p.0 - 1, p.1 - 1)), occ_n(elves@, (p.0 - 1, p.1)), occ_n(elves@, (p.0 - 1, p.1 + 1)),
        occ_n(elves@, (p.0, p.1 - 1)), occ_n(elves@, p), occ_n(elves@, (p.0, p.1 + 1)),
        occ_n(elves@, (p.0 + 1, p.1 - 1)), occ_n(elves@, (p.0 + 1, p.1)), occ_n(elves@, (p.0 + 1, p.1 + 1))
    ];
    while i < 9
        invariant
            offsets@ == square(),
            p == pi(point),
            terms.len() == 9,
            forall|t: int| 0 <= t < 9 ==> #[trigger] terms[t] == occ_n(elves@, (p.0 + offsets@[t].0, p.1 + offsets@[t].1)),
            i <= 9,
            count <= i,
            count == sum_first(terms, i as int),
        decreases 9 - i,
    {
        let (dx, dy) = offsets[i];
        if occupied(elves, (point.0 as i64 + dx as i64, point.1 as i64 + dy as i64)) {
            count += 1;
        }
        i += 1;
    }
    proof {
        reveal_with_fuel(sum_first, 10);
    }
    assert(sum_first(terms, 9) == around(elves@, p));
    count > 1
}

pub open spec fn sum_first(s: Seq<int>, n: int) -> int
    decreases n,
{
    if n <= 0 { 0 } else { sum_first(s, n - 1) + s[n - 1] }
}

/// Whether the three cells on side `direction` of `point` are free.
pub fn empty_in_direction(point: Point, direction: &Direction, elves: &Vec<Point>) -> (r: bool)
    ensures
        r == free_side(elves@, pi(point), *direction),
{
    let (x, y) = (point.0 as i64, point.1 as i64);
    match direction {
        Direction::North => !occupied(elves, (x - 1, y - 1)) && !occupied(elves, (x - 1, y)) && !occupied(elves, (x - 1, y + 1)),
        Direction::South => !occupied(elves, (x + 1, y - 1)) && !occupied(elves, (x + 1, y)) && !occupied(elves, (x + 1, y + 1)),
        Direction::West => !occupied(elves, (x - 1, y - 1)) && !occupied(elves, (x, y - 1)) && !occupied(elves, (x + 1, y - 1)),
        Direction::East => !occupied(elves, (x - 1, y + 1)) && !occupied(elves, (x, y + 1)) && !occupied(elves, (x + 1, y + 1)),
    }
}

/// The step the elf on `point` proposes (see `proposal`).
pub fn proposed_move(point: Point, initial_direction: &Direction, elves: &Vec<Point>) -> (r: Option<Point>)
    requires
        i32::MIN < point.0 < i32::MAX,
        i32::MIN < point.1 < i32::MAX,
    ensures
        match r {
            Some(q) => proposal(elves@, pi(point), *initial_direction) == Some(pi(q)),
            None => proposal(elves@, pi(point), *initial_direction) is None,
        },
{
    if !has_neighbors(point, elves) {
        return None;
    }
    let d0 = *initial_direction;
    if empty_in_direction(point, &d0, elves) {
        return Some(d0.of(point));
    }
    let d1 = d0.next();
    if empty_in_direction(point, &d1, elves) {
        return Some(d1.of(point));
    }
    let d2 = d1.next();
    if empty_in_direction(point, &d2, elves) {
        return Some(d2.of(point));
    }
    let d3 = d2.next();
    if empty_in_direction(point, &d3, elves) {
        return Some(d3.of(point));
    }
    None
}


/// The largest coordinate, in absolute value, the rounds may move an elf to.
pub const MAX_COORD: i32 = 2_000_000;

/// The elves after one round, in the same order.
pub open spec fn round_spec(es: Seq<Point>, d: Direction) -> Seq<Point> {
    Seq::new(es.len(), |k: int| (moved_to(es, d, k).0 as i32, moved_to(es, d, k).1 as i32))
}

/// The elves and the first direction to try after `n` rounds from `es`.
pub open spec fn state_after(es: Seq<Point>, n: nat) -> (Seq<Point>, Direction)
    decreases n,
{
    if n == 0 {
        (es, Direction::North)
    } else {
        let (e, d) = state_after(es, (n - 1) as nat);
        (round_spec(e, d), next_spec(d))
    }
}

proof fn lemma_proposal_near(es: Seq<Point>, p: (int, int), d: Direction)
    ensures
        proposal(es, p, d) matches Some(q) ==> q != p && -1 <= q.0 - p.0 <= 1 && -1 <= q.1 - p.1 <= 1,
{
}

/// Plays one round: every elf with a proposal no other elf shares moves there; the first
/// direction to try turns to the next one. Returns whether an elf moved.
pub fn do_round(elves: &mut Vec<Point>, direction: &mut Direction) -> (r: bool)
    requires
        bounded(old(elves)@, MAX_COORD as int),
    ensures
        final(elves)@.len() == old(elves)@.len(),
        forall|k: int| 0 <= k < final(elves)@.len() ==> pi(#[trigger] final(elves)@[k]) == moved_to(old(elves)@, *old(direction), k),
        final(elves)@ == round_spec(old(elves)@, *old(direction)),
        *final(direction) == next_spec(*old(direction)),
        r == any_moves(old(elves)@, *old(direction)),
        forall|b: int| b <= MAX_COORD && #[trigger] bounded(old(elves)@, b) ==> bounded(final(elves)@, b + 1),
{
    let d = *direction;
    let ghost es = elves@;
    let n = elves.len();
    let mut props: Vec<Option<Point>> = Vec::new();
    let mut k: usize = 0;
    while k < n
        invariant
            es == elves@,
            n == es.len(),
            bounded(es, MAX_COORD as int),
            k <= n,
            props@.len() == k,
            forall|j: int|
                0 <= j < k ==> match #[trigger] props@[j] {
                    Some(q) => proposal(es, pi(es[j]), d) == Some(pi(q)),
                    None => proposal(es, pi(es[j]), d) is None,
                },
        decreases n - k,
    {
        assert(-MAX_COORD <= es[k as int].0 <= MAX_COORD);
        let pm = proposed_move(elves[k], &d, elves);
        props.push(pm);
        k += 1;
    }
    let mut next: Vec<Point> = Vec::new();
    let mut any = false;
    let mut k: usize = 0;
    while k < n
        invariant
            es == elves@,
            n == es.len(),
            bounded(es, MAX_COORD as int),
            props@.len() == n,
            forall|j: int|
                0 <= j < n ==> match #[trigger] props@[j] {
                    Some(q) => proposal(es, pi(es[j]), d) == Some(pi(q)),
                    None => proposal(es, pi(es[j]), d) is None,
                },
            k <= n,
            next@.len() == k,
            forall|j: int| 0 <= j < k ==> pi(#[trigger] next@[j]) == moved_to(es, d, j),
            any == exists|j: int| 0 <= j < k && #[trigger] moved_to(es, d, j) != pi(es[j]),
        decreases n - k,
    {
        proof {
            lemma_proposal_near(es, pi(es[k as int]), d);
        }
        match props[k] {
            Some(q) => {
                let mut c: usize = 0;
                let mut j: usize = 0;
                while j < n
                    invariant
                        props@.len() == n,
                        n == es.len(),
                        forall|t: int|
                            0 <= t < n ==> match #[trigger] props@[t] {
                                Some(q2) => proposal(es, pi(es[t]), d) == Some(pi(q2)),
                                None => proposal(es, pi(es[t]), d) is None,
                            },
                        j <= n,
                        c <= j,
                        c == proposers(es, d, pi(q), j as int),
                    decreases n - j,
                {
                    let same = match props[j] {
                        Some(q2) => q2.0 == q.0 && q2.1 == q.1,
                        None => false,
                    };
                    if same {
                        c += 1;
                    }
                    j += 1;
                }
                if c == 1 {
                    next.push(q);
                    any = true;
                } else {
                    next.push(elves[k]);
                }
            },
            None => {
                next.push(elves[k]);
            },
        }
        assert(pi(next@[k as int]) == moved_to(es, d, k as int));
        k += 1;
    }
    proof {
        assert(next@ =~= round_spec(es, d)) by {
            assert forall|j: int| 0 <= j < n implies next@[j] == round_spec(es, d)[j] by {
                assert(pi(next@[j]) == moved_to(es, d, j));
            }
        }
        assert forall|b: int| b <= MAX_COORD && #[trigger] bounded(es, b) implies bounded(next@, b + 1) by {
            assert forall|j: int| 0 <= j < next@.len() implies -(b + 1) <= (#[trigger] next@[j]).0 <= b + 1 && -(b
                + 1) <= next@[j].1 <= b + 1 by {
                lemma_proposal_near(es, pi(es[j]), d);
                assert(pi(next@[j]) == moved_to(es, d, j));
            }
        }
    }
    *elves = next;
    *direction = d.next();
    any
}


/// The elves on the first `c` cells of a map line of row `r`: one for each `#`.
pub open spec fn row_elves(line: Seq<u8>, r: int, c: int) -> Seq<Point>
    decreases c,
{
    if c <= 0 {
        Seq::empty()
    } else {
        row_elves(line, r, c - 1) + if line[c - 1] == 35 {
            seq![(r as i32, (c - 1) as i32)]
        } else {
            Seq::empty()
        }
    }
}

/// The elves of the first `n` lines of the map `ls`, row by row.
pub open spec fn map_elves(ls: Seq<Seq<u8>>, n: int) -> Seq<Point>
    decreases n,
{
    if n <= 0 {
        Seq::empty()
    } else {
        map_elves(ls, n - 1) + row_elves(ls[n - 1], n - 1, ls[n - 1].len() as int)
    }
}

/// At most `MAX_START` lines, each at most `MAX_START` long.
pub open spec fn map_fits(ls: Seq<Seq<u8>>) -> bool {
    ls.len() <= MAX_START && forall|r: int| 0 <= r < ls.len() ==> (#[trigger] ls[r]).len() <= MAX_START
}

proof fn lemma_map_bounded(ls: Seq<Seq<u8>>, n: int)
    requires
        map_fits(ls),
        0 <= n <= ls.len(),
    ensures
        bounded(map_elves(ls, n), MAX_START as int),
    decreases n,
{
    if n > 0 {
        lemma_map_bounded(ls, n - 1);
        lemma_row_bounded(ls[n - 1], n - 1, ls[n - 1].len() as int);
    }
}

proof fn lemma_row_bounded(line: Seq<u8>, r: int, c: int)
    requires
        0 <= r < MAX_START,
        c <= line.len() <= MAX_START,
    ensures
        bounded(row_elves(line, r, c), MAX_START as int),
    decreases c,
{
    if c > 0 {
        lemma_row_bounded(line, r, c - 1);
    }
}

/// The elves drawn as `#` on the map `input`, row by row; `None` when the map is more than
/// `MAX_START` lines or columns.
pub fn generator(input: &str) -> (r: Option<Vec<Point>>)
    ensures
        match r {
            Some(v) => map_fits(text_lines(input)) && v@ == map_elves(text_lines(input), text_lines(input).len() as int),
            None => !map_fits(text_lines(input)),
        },
{
    let rows = str_lines(input);
    let ghost ls = views(rows@);
    if rows.len() > MAX_START as usize {
        return None;
    }
    let mut elves: Vec<Point> = Vec::new();
    let mut row: usize = 0;
    while row < rows.len()
        invariant
            ls == views(rows@),
            ls == text_lines(input),
            ls.len() <= MAX_START,
            row <= ls.len(),
            forall|r: int| 0 <= r < row ==> (#[trigger] ls[r]).len() <= MAX_START,
            elves@ == map_elves(ls, row as int),
        decreases ls.len() - row,
    {
        let line = &rows[row];
        assert(line@ == ls[row as int]);
        if line.len() > MAX_START as usize {
            return None;
        }
        let ghost before = elves@;
        let mut col: usize = 0;
        while col < line.len()
            invariant
                line@ == ls[row as int],
                line@.len() <= MAX_START,
                row < ls.len() <= MAX_START,
                col <= line@.len(),
                elves@ == before + row_elves(line@, row as int, col as int),
            decreases line@.len() - col,
        {
            if line[col] == 35 {
                elves.push((row as i32, col as i32));
            }
            assert(elves@ =~= before + row_elves(line@, row as int, col + 1));
            col += 1;
        }
        assert(elves@ =~= map_elves(ls, row + 1));
        row += 1;
    }
    Some(elves)
}

/// The least row (`a == 0`) or column (`a == 1`) among the first `n >= 1` elves.
pub open spec fn least(es: Seq<Point>, a: int, n: int) -> int
    decreases n,
{
    let v = if a == 0 { es[n - 1].0 as int } else { es[n - 1].1 as int };
    if n <= 1 {
        v
    } else {
        let m = least(es, a, n - 1);
        if v < m { v } else { m }
    }
}

/// The greatest row (`a == 0`) or column (`a == 1`) among the first `n >= 1` elves.
pub open spec fn most(es: Seq<Point>, a: int, n: int) -> int
    decreases n,
{
    let v = if a == 0 { es[n - 1].0 as int } else { es[n - 1].1 as int };
    if n <= 1 {
        v
    } else {
        let m = most(es, a, n - 1);
        if v > m { v } else { m }
    }
}

proof fn lemma_least_most(es: Seq<Point>, a: int, n: int, b: int)
    requires
        1 <= n <= es.len(),
        bounded(es, b),
    ensures
        -b <= least(es, a, n) <= most(es, a, n) <= b,
    decreases n,
{
    assert(-b <= es[n - 1].0 <= b && -b <= es[n - 1].1 <= b);
    if n > 1 {
        lemma_least_most(es, a, n - 1, b);
    }
}

/// The empty cells of the smallest rectangle holding every elf.
pub open spec fn empty_ground(es: Seq<Point>) -> int {
    let n = es.len() as int;
    (most(es, 0, n) - least(es, 0, n) + 1) * (most(es, 1, n) - least(es, 1, n) + 1) - n
}

/// The empty ground in the rectangle around the elves after ten rounds.
pub fn part1(input: &Vec<Point>) -> (r: i32)
    requires
        input@.len() >= 1,
        input@.len() <= 1_000_000,
        bounded(input@, MAX_START as int),
    ensures
        r == empty_ground(state_after(input@, 10).0),
{
    let mut elves: Vec<Point> = Vec::new();
    let mut k: usize = 0;
    while k < input.len()
        invariant
            k <= input@.len(),
            elves@ == input@.subrange(0, k as int),
        decreases input@.len() - k,
    {
        elves.push(input[k]);
        k += 1;
    }
    assert(elves@ =~= input@);
    let mut direction = Direction::North;
    let mut round: usize = 0;
    while round < 10
        invariant
            round <= 10,
            (elves@, direction) == state_after(input@, round as nat),
            elves@.len() == input@.len(),
            bounded(elves@, MAX_START + round),
        decreases 10 - round,
    {
        do_round(&mut elves, &mut direction);
        round += 1;
    }
    let n = elves.len();
    let mut lo_r = elves[0].0;
    let mut hi_r = elves[0].0;
    let mut lo_c = elves[0].1;
    let mut hi_c = elves[0].1;
    let mut k: usize = 1;
    while k < n
        invariant
            n == elves@.len(),
            1 <= k <= n,
            lo_r == least(elves@, 0, k as int),
            hi_r == most(elves@, 0, k as int),
            lo_c == least(elves@, 1, k as int),
            hi_c == most(elves@, 1, k as int),
        decreases n - k,
    {
        let p = elves[k];
        if p.0 < lo_r {
            lo_r = p.0;
        }
        if p.0 > hi_r {
            hi_r = p.0;
        }
        if p.1 < lo_c {
            lo_c = p.1;
        }
        if p.1 > hi_c {
            hi_c = p.1;
        }
        k += 1;
    }
    proof {
        lemma_least_most(elves@, 0, n as int, MAX_START + 10);
        lemma_least_most(elves@, 1, n as int, MAX_START + 10);
        let w = hi_r - lo_r + 1;
        let h = hi_c - lo_c + 1;
        assert(w * h <= 20021 * 20021) by (nonlinear_arith)
            requires
                1 <= w <= 20021,
                1 <= h <= 20021,
        ;
        assert(w * h >= 1) by (nonlinear_arith)
            requires
                1 <= w,
                1 <= h,
        ;
    }
    (hi_r - lo_r + 1) * (hi_c - lo_c + 1) - (n as i32)
}

/// The number of the first round in which no elf moves.
pub fn part2(input: &Vec<Point>) -> (r: u32)
    requires
        bounded(input@, MAX_START as int),
        exists|k: int| 1 <= k <= 1_000_000 && !#[trigger] any_moves(state_after(input@, (k - 1) as nat).0, state_after(input@, (k - 1) as nat).1),
    ensures
        r >= 1,
        !any_moves(state_after(input@, (r - 1) as nat).0, state_after(input@, (r - 1) as nat).1),
        forall|j: int| 1 <= j < r ==> #[trigger] any_moves(state_after(input@, (j - 1) as nat).0, state_after(input@, (j - 1) as nat).1),
{
    let ghost stop = choose|k: int| 1 <= k <= 1_000_000 && !#[trigger] any_moves(state_after(input@, (k - 1) as nat).0, state_after(input@, (k - 1) as nat).1);
    let mut elves: Vec<Point> = Vec::new();
    let mut k: usize = 0;
    while k < input.len()
        invariant
            k <= input@.len(),
            elves@ == input@.subrange(0, k as int),
        decreases input@.len() - k,
    {
        elves.push(input[k]);
        k += 1;
    }
    assert(elves@ =~= input@);
    let mut direction = Direction::North;
    let mut rounds: u32 = 1;
    loop
        invariant
            1 <= rounds <= stop,
            stop <= 1_000_000,
            !any_moves(state_after(input@, (stop - 1) as nat).0, state_after(input@, (stop - 1) as nat).1),
            (elves@, direction) == state_after(input@, (rounds - 1) as nat),
            bounded(elves@, MAX_START + rounds - 1),
            forall|j: int| 1 <= j < rounds ==> #[trigger] any_moves(state_after(input@, (j - 1) as nat).0, state_after(input@, (j - 1) as nat).1),
        decreases stop - rounds,
    {
        let ghost before = (elves@, direction);
        let moved = do_round(&mut elves, &mut direction);
        if !moved {
            return rounds;
        }
        assert(rounds < stop);
        assert(state_after(input@, rounds as nat) == (round_spec(before.0, before.1), next_spec(before.1)));
        rounds += 1;
    }
}

} // verus!
