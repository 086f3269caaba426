//! A rope of knots pulled across a grid: each knot follows the one before it, and the
//! cells the last knot visits are counted.
use vstd::prelude::*;
use crate::text::{decimal, find_byte, first_index, is_decimal, parse_u32, slice_of, str_lines, text_lines, views};

verus! {

#[derive(Clone, Copy, Debug, PartialEq, Eq)]
pub enum Direction {
    Up,
    Down,
    Left,
    Right,
}

/// A knot's cell.
#[derive(Clone, Copy, Debug, PartialEq, Eq)]
pub struct Point {
    pub x: i32,
    pub y: i32,
}

/// One line of the motions: a direction and how many cells to pull the head.
#[derive(Clone, Copy, Debug, PartialEq, Eq)]
pub struct Step {
    pub direction: Direction,
    pub count: usize,
}

pub open spec fn pt(p: Point) -> (int, int) {
    (p.x as int, p.y as int)
}

/// The cell one step from `p` in direction `d` (up is `y + 1`).
pub open spec fn translated(p: (int, int), d: Direction) -> (int, int) {
    match d {
        Direction::Up => (p.0, p.1 + 1),
        Direction::Down => (p.0, p.1 - 1),
        Direction::Left => (p.0 - 1, p.1),
        Direction::Right => (p.0 + 1, p.1),
    }
}

/// Half of `d`, rounded toward zero.
pub open spec fn half(d: int) -> int {
    if d >= 0 { d / 2 } else { -((-d) / 2) }
}

pub open spec fn sign(d: int) -> int {
    if d > 0 { 1 } else if d < 0 { -1 } else { 0 }
}

/// Where a knot at `p` moves when the knot before it is at `q`: nowhere when they touch;
/// halfway along a row or column; else one step diagonally toward it.
pub open spec fn followed(p: (int, int), q: (int, int)) -> (int, int) {
    let dx = q.0 - p.0;
    let dy = q.1 - p.1;
    if -1 <= dx <= 1 && -1 <= dy <= 1 {
        p
    } else if dx == 0 {
        (p.0, p.1 + half(dy))
    } else if dy == 0 {
        (p.0 + half(dx), p.1)
    } else {
        (p.0 + sign(dx), p.1 + sign(dy))
    }
}

/// The knots after the first `k` of them have followed, in order, the knot before.
pub open spec fn follow_from(knots: Seq<(int, int)>, k: int) -> Seq<(int, int)>
    decreases k,
{
    if k <= 1 {
        knots
    } else {
        let prev = follow_from(knots, k - 1);
        prev.update(k - 1, followed(prev[k - 1], prev[k - 2]))
    }
}

/// The knots after the head moves one step in direction `d` and every other knot follows.
pub open spec fn pulled(knots: Seq<(int, int)>, d: Direction) -> Seq<(int, int)> {
    follow_from(knots.update(0, translated(knots[0], d)), knots.len() as int)
}

/// The single head moves of `steps`, in order.
pub open spec fn unit_moves(steps: Seq<Step>) -> Seq<Direction>
    decreases steps.len(),
{
    if steps.len() == 0 {
        Seq::empty()
    } else {
        unit_moves(steps.drop_last()) + Seq::new(steps.last().count as nat, |i: int| steps.last().direction)
    }
}

/// The knots after the moves `moves`, from `n` knots at the origin.
pub open spec fn rope_after(moves: Seq<Direction>, n: nat) -> Seq<(int, int)>
    decreases moves.len(),
{
    if moves.len() == 0 {
        Seq::new(n, |i: int| (0int, 0int))
    } else {
        pulled(rope_after(moves.drop_last(), n), moves.last())
    }
}

/// The cells the last of `n` knots is on after each of the moves `moves`.
pub open spec fn tail_cells(moves: Seq<Direction>, n: nat) -> Set<(int, int)>
    decreases moves.len(),
{
    if moves.len() == 0 {
        Set::empty()
    } else {
        tail_cells(moves.drop_last(), n).insert(rope_after(moves, n).last())
    }
}

impl Direction {
    /// Reads `U`, `D`, `L` or `R`.
    pub fn from_str(input: &[u8]) -> (r: Option<Direction>)
        ensures
            r == direction_text(input@),
    {
        if input.len() != 1 {
            return None;
        }
        assert(input@ =~= seq![input@[0]]);
        if input[0] == 85 {
            Some(Direction::Up)
        } else if input[0] == 68 {
            Some(Direction::Down)
        } else if input[0] == 76 {
            Some(Direction::Left)
        } else if input[0] == 82 {
            Some(Direction::Right)
        } else {
            None
        }
    }
}

pub open spec fn direction_text(s: Seq<u8>) -> Option<Direction> {
    if s == seq![85u8] {
        Some(Direction::Up)
    } else if s == seq![68u8] {
        Some(Direction::Down)
    } else if s == seq![76u8] {
        Some(Direction::Left)
    } else if s == seq![82u8] {
        Some(Direction::Right)
    } else {
        None
    }
}

pub open spec fn abs_le(v: int, b: int) -> bool {
    -b <= v <= b
}

/// Every knot is within `b` of the origin on both axes.
pub open spec fn bounded(knots: Seq<(int, int)>, b: int) -> bool {
    forall|i: int| 0 <= i < knots.len() ==> abs_le((#[trigger] knots[i]).0, b) && abs_le(knots[i].1, b)
}

impl Point {
    /// Moves one step in `direction`.
    pub fn translate(&mut self, direction: &Direction)
        requires
            abs_le(old(self).x as int, i32::MAX - 1),
            abs_le(old(self).y as int, i32::MAX - 1),
        ensures
            pt(*final(self)) == translated(pt(*old(self)), *direction),
    {
        match *direction {
            Direction::Up => self.y = self.y + 1,
            Direction::Down => self.y = self.y - 1,
            Direction::Left => self.x = self.x - 1,
            Direction::Right => self.x = self.x + 1,
        }
    }

    /// Follows the knot at `other`.
    pub fn move_towards(&mut self, other: Point)
        requires
            abs_le(old(self).x as int, i32::MAX / 2),
            abs_le(old(self).y as int, i32::MAX / 2),
            abs_le(other.x as int, i32::MAX / 2),
            abs_le(other.y as int, i32::MAX / 2),
        ensures
            pt(*final(self)) == followed(pt(*old(self)), pt(other)),
    {
        let dx = other.x - self.x;
        let dy = other.y - self.y;
        if -1 <= dx && dx <= 1 && -1 <= dy && dy <= 1 {
        } else if dx == 0 {
            self.y = self.y + if dy >= 0 { dy / 2 } else { -((-dy) / 2) };
        } else if dy == 0 {
            self.x = self.x + if dx >= 0 { dx / 2 } else { -((-dx) / 2) };
        } else {
            self.x = self.x + if dx > 0 { 1 } else { -1 };
            self.y = self.y + if dy > 0 { 1 } else { -1 };
        }
    }
}

proof fn lemma_followed_bounded(p: (int, int), q: (int, int), b: int)
    requires
        abs_le(p.0, b) && abs_le(p.1, b),
        abs_le(q.0, b) && abs_le(q.1, b),
    ensures
        abs_le(followed(p, q).0, b) && abs_le(followed(p, q).1, b),
{
}

proof fn lemma_bounded_mono(knots: Seq<(int, int)>, b: int, c: int)
    requires
        bounded(knots, b),
        b <= c,
    ensures
        bounded(knots, c),
{
}

/// Pulling a rope whose knots are within `b` of the origin leaves them within `b + 1`.
proof fn lemma_pulled_bounded(knots: Seq<(int, int)>, d: Direction, b: int)
    requires
        knots.len() >= 1,
        0 <= b,
        bounded(knots, b),
    ensures
        bounded(pulled(knots, d), b + 1),
{
    let moved = knots.update(0, translated(knots[0], d));
    assert(bounded(moved, b + 1)) by {
        assert forall|i: int| 0 <= i < moved.len() implies abs_le((#[trigger] moved[i]).0, b + 1) && abs_le(moved[i].1, b + 1) by {
            assert(abs_le(knots[i].0, b) && abs_le(knots[i].1, b));
        }
    }
    lemma_follow_bounded(moved, knots.len() as int, b + 1);
}

proof fn lemma_follow_bounded(knots: Seq<(int, int)>, k: int, b: int)
    requires
        k <= knots.len(),
        bounded(knots, b),
    ensures
        bounded(follow_from(knots, k), b),
        follow_from(knots, k).len() == knots.len(),
    decreases k,
{
    if k > 1 {
        lemma_follow_bounded(knots, k - 1, b);
        let prev = follow_from(knots, k - 1);
        assert(abs_le(prev[k - 1].0, b) && abs_le(prev[k - 1].1, b));
        assert(abs_le(prev[k - 2].0, b) && abs_le(prev[k - 2].1, b));
        lemma_followed_bounded(prev[k - 1], prev[k - 2], b);
    }
}

/// A rope of knots; the first is the head.
pub struct Rope {
    pub knots: Vec<Point>,
}

impl Rope {
    pub open spec fn view_knots(&self) -> Seq<(int, int)> {
        self.knots@.map_values(|p: Point| pt(p))
    }

    /// `n` knots at the origin.
    pub fn new(n: usize) -> (r: Rope)
        ensures
            r.view_knots() == Seq::new(n as nat, |i: int| (0int, 0int)),
            r.knots@.len() == n,
    {
        let mut knots: Vec<Point> = Vec::new();
        let mut i: usize = 0;
        while i < n
            invariant
                i <= n,
                knots@.map_values(|p: Point| pt(p)) =~= Seq::new(i as nat, |j: int| (0int, 0int)),
            decreases n - i,
        {
            let ghost before = knots@;
            knots.push(Point { x: 0, y: 0 });
            assert(knots@.map_values(|p: Point| pt(p)) =~= before.map_values(|p: Point| pt(p)).push((0int, 0int)));
            i += 1;
        }
        Rope { knots }
    }

    /// Moves the head one step in `direction`, then lets every knot follow the one before.
    pub fn pull(&mut self, direction: &Direction)
        requires
            old(self).knots@.len() >= 1,
            bounded(old(self).view_knots(), i32::MAX / 2 - 1),
        ensures
            final(self).view_knots() == pulled(old(self).view_knots(), *direction),
            final(self).knots@.len() == old(self).knots@.len(),
    {
        let ghost b = i32::MAX / 2 - 1;
        let ghost start = self.view_knots();
        let mut head = self.knots[0];
        assert(pt(head) == start[0]);
        assert(abs_le(start[0].0, b) && abs_le(start[0].1, b));
        head.translate(direction);
        self.knots.set(0, head);
        let ghost moved = start.update(0, translated(start[0], *direction));
        assert(self.view_knots() =~= moved);
        let n = self.knots.len();
        let mut k: usize = 1;
        while k < n
            invariant
                n == self.knots@.len(),
                n == start.len(),
                1 <= k <= n,
                0 <= b < i32::MAX / 2,
                moved == start.update(0, translated(start[0], *direction)),
                self.view_knots() == follow_from(moved, k as int),
                bounded(self.view_knots(), b + 1),
            decreases n - k,
        {
            let prev = self.knots[k - 1];
            let mut knot = self.knots[k];
            assert(pt(knot) == self.view_knots()[k as int]);
            assert(pt(prev) == self.view_knots()[k - 1]);
            proof {
                lemma_followed_bounded(pt(knot), pt(prev), b + 1);
            }
            knot.move_towards(prev);
            let ghost before = self.view_knots();
            self.knots.set(k, knot);
            assert(self.view_knots() =~= before.update(k as int, followed(before[k as int], before[k - 1])));
            k += 1;
        }
    }
}

/// How many cells the last of `n` knots visits as the head makes the moves of `steps`.
fn tail_visits(steps: &Vec<Step>, n: usize) -> (r: usize)
    requires
        n >= 1,
        unit_moves(steps@).len() < i32::MAX / 2,
    ensures
        r == tail_cells(unit_moves(steps@), n as nat).len(),
{
    let mut rope = Rope::new(n);
    let mut visited: Vec<Point> = Vec::new();
    let ghost mut moves: Seq<Direction> = Seq::empty();
    let mut t: usize = 0;
    let mut s: usize = 0;
    while s < steps.len()
        invariant
            n >= 1,
            s <= steps@.len(),
            moves == unit_moves(steps@.subrange(0, s as int)),
            unit_moves(steps@).len() < i32::MAX / 2,
            t == moves.len(),
            t <= unit_moves(steps@).len(),
            rope.knots@.len() == n,
            rope.view_knots() == rope_after(moves, n as nat),
            bounded(rope.view_knots(), t as int),
            visited@.no_duplicates(),
            visited@.map_values(|p: Point| pt(p)).to_set() == tail_cells(moves, n as nat),
        decreases steps@.len() - s,
    {
        let step = steps[s];
        proof {
            assert(steps@.subrange(0, s + 1).drop_last() =~= steps@.subrange(0, s as int));
            lemma_moves_prefix(steps@, s as int + 1);
        }
        let ghost step_moves = unit_moves(steps@.subrange(0, s + 1));
        let mut j: usize = 0;
        while j < step.count
            invariant
                n >= 1,
                j <= step.count,
                step_moves == moves.subrange(0, t - j) + Seq::new(step.count as nat, |i: int| step.direction),
                step_moves.len() <= unit_moves(steps@).len(),
                unit_moves(steps@).len() < i32::MAX / 2,
                t == moves.len(),
                moves == step_moves.subrange(0, t as int),
                j <= t,
                rope.knots@.len() == n,
                rope.view_knots() == rope_after(moves, n as nat),
                bounded(rope.view_knots(), t as int),
                visited@.no_duplicates(),
                visited@.map_values(|p: Point| pt(p)).to_set() == tail_cells(moves, n as nat),
            decreases step.count - j,
        {
            proof {
                lemma_bounded_mono(rope.view_knots(), t as int, i32::MAX / 2 - 1);
                lemma_pulled_bounded(rope.view_knots(), step.direction, t as int);
            }
            rope.pull(&step.direction);
            let ghost next = moves.push(step.direction);
            assert(next.drop_last() =~= moves);
            let tail = rope.knots[n - 1];
            assert(pt(tail) == rope_after(next, n as nat).last());
            let ghost old_visited = visited@;
            if !contains_point(&visited, tail) {
                visited.push(tail);
                proof {
                    lemma_push_distinct(old_visited, tail);
                }
            }
            assert(visited@.map_values(|p: Point| pt(p)).to_set() =~= tail_cells(next, n as nat)) by {
                lemma_map_set(old_visited, visited@, tail);
            }
            proof {
                moves = next;
            }
            assert(moves =~= step_moves.subrange(0, t + 1));
            j += 1;
            t += 1;
        }
        assert(moves =~= step_moves);
        s += 1;
    }
    assert(steps@.subrange(0, steps@.len() as int) =~= steps@);
    proof {
        visited@.map_values(|p: Point| pt(p)).unique_seq_to_set();
        lemma_map_no_dups(visited@);
    }
    visited.len()
}

/// The moves of the first `i` steps are a prefix of all the moves, of which the moves of
/// step `i - 1` come last.
proof fn lemma_moves_prefix(steps: Seq<Step>, i: int)
    requires
        0 <= i <= steps.len(),
    ensures
        unit_moves(steps.subrange(0, i)).len() <= unit_moves(steps).len(),
    decreases steps.len() - i,
{
    if i < steps.len() {
        lemma_moves_prefix(steps, i + 1);
        assert(steps.subrange(0, i + 1).drop_last() =~= steps.subrange(0, i));
    } else {
        assert(steps.subrange(0, i) =~= steps);
    }
}

proof fn lemma_push_distinct(v: Seq<Point>, p: Point)
    requires
        v.no_duplicates(),
        !v.contains(p),
    ensures
        v.push(p).no_duplicates(),
{
    assert forall|i: int, j: int| 0 <= i < v.push(p).len() && 0 <= j < v.push(p).len() && i != j implies v.push(
        p,
    )[i] != v.push(p)[j] by {
        if i < v.len() && j < v.len() {
        } else if i == v.len() {
            assert(v[j] == v.push(p)[j]);
        } else {
            assert(v[i] == v.push(p)[i]);
        }
    }
}

proof fn lemma_map_set(before: Seq<Point>, after: Seq<Point>, p: Point)
    requires
        after == before || after == before.push(p),
        after == before ==> before.contains(p),
    ensures
        after.map_values(|q: Point| pt(q)).to_set() =~= before.map_values(|q: Point| pt(q)).to_set().insert(pt(p)),
{
    let f = |q: Point| pt(q);
    let a = after.map_values(f);
    let b = before.map_values(f);
    assert forall|c: (int, int)| a.to_set().contains(c) <==> b.to_set().insert(pt(p)).contains(c) by {
        if a.contains(c) {
            let i = choose|i: int| 0 <= i < a.len() && a[i] == c;
            if i < before.len() {
                assert(b[i] == c);
            }
        }
        if b.contains(c) {
            let i = choose|i: int| 0 <= i < b.len() && b[i] == c;
            assert(a[i] == c);
        }
        if c == pt(p) {
            if after == before {
                let i = choose|i: int| 0 <= i < before.len() && before[i] == p;
                assert(a[i] == c);
            } else {
                assert(a[before.len() as int] == c);
            }
        }
    }
}

proof fn lemma_map_no_dups(v: Seq<Point>)
    requires
        v.no_duplicates(),
    ensures
        v.map_values(|q: Point| pt(q)).no_duplicates(),
{
    let a = v.map_values(|q: Point| pt(q));
    assert forall|i: int, j: int| 0 <= i < a.len() && 0 <= j < a.len() && i != j implies a[i] != a[j] by {
        assert(v[i] != v[j]);
    }
}

fn contains_point(v: &Vec<Point>, p: Point) -> (r: bool)
    ensures
        r == v@.contains(p),
{
    let mut i: usize = 0;
    while i < v.len()
        invariant
            i <= v@.len(),
            forall|j: int| 0 <= j < i ==> v@[j] != p,
        decreases v@.len() - i,
    {
        if v[i].x == p.x && v[i].y == p.y {
            assert(v@[i as int] == p);
            return true;
        }
        i += 1;
    }
    false
}


/// The step written `D n`, split at the first space.
pub open spec fn step_text(s: Seq<u8>) -> Option<Step> {
    match first_index(s, 32) {
        Some(i) => match direction_text(s.subrange(0, i)) {
            Some(d) => {
                let n = s.subrange(i + 1, s.len() as int);
                if is_decimal(n) && decimal(n) <= u32::MAX {
                    Some(Step { direction: d, count: decimal(n) as u32 as usize })
                } else {
                    None
                }
            },
            None => None,
        },
        None => None,
    }
}

/// The steps of the lines of `lines`, or `None` when a line is not a step.
pub open spec fn steps_text(lines: Seq<Seq<u8>>) -> Option<Seq<Step>>
    decreases lines.len(),
{
    if lines.len() == 0 {
        Some(Seq::empty())
    } else {
        match (steps_text(lines.drop_last()), step_text(lines.last())) {
            (Some(ps), Some(p)) => Some(ps.push(p)),
            _ => None,
        }
    }
}

proof fn lemma_steps_none(all: Seq<Seq<u8>>, i: int)
    requires
        0 <= i <= all.len(),
        steps_text(all.subrange(0, i)) is None,
    ensures
        steps_text(all) is None,
    decreases all.len() - i,
{
    if i < all.len() {
        assert(all.subrange(0, i + 1).drop_last() =~= all.subrange(0, i));
        lemma_steps_none(all, i + 1);
    } else {
        assert(all.subrange(0, i) =~= all);
    }
}

fn parse_step(line: &Vec<u8>) -> (r: Option<Step>)
    ensures
        r == step_text(line@),
{
    let n = line.len();
    match find_byte(line.as_slice(), 32) {
        Some(i) => {
            assert(i < n);
            let left = slice_of(line.as_slice(), 0, i);
            match Direction::from_str(left.as_slice()) {
                Some(direction) => {
                    let right = slice_of(line.as_slice(), i + 1, n);
                    match parse_u32(right.as_slice()) {
                        Some(count) => Some(Step { direction, count: count as usize }),
                        None => None,
                    }
                },
                None => None,
            }
        },
        None => None,
    }
}

/// The steps on the lines of `input`; `None` when a line is not a direction letter, a
/// space and a count.
pub fn generator(input: &str) -> (r: Option<Vec<Step>>)
    ensures
        match r {
            Some(v) => steps_text(text_lines(input)) == Some(v@),
            None => steps_text(text_lines(input)) is None,
        },
{
    let rows = str_lines(input);
    let ghost all = views(rows@);
    let mut out: Vec<Step> = Vec::new();
    let mut i: usize = 0;
    while i < rows.len()
        invariant
            all == views(rows@),
            all == text_lines(input),
            i <= all.len(),
            steps_text(all.subrange(0, i as int)) == Some(out@),
        decreases all.len() - i,
    {
        assert(all.subrange(0, i + 1).drop_last() =~= all.subrange(0, i as int));
        assert(all[i as int] == rows@[i as int]@);
        match parse_step(&rows[i]) {
            Some(p) => out.push(p),
            None => {
                proof {
                    lemma_steps_none(all, i as int + 1);
                }
                return None;
            },
        }
        i += 1;
    }
    assert(all.subrange(0, all.len() as int) =~= all);
    Some(out)
}

/// How many cells the tail of a two-knot rope visits.
pub fn part1(input: &Vec<Step>) -> (r: usize)
    requires
        unit_moves(input@).len() < i32::MAX / 2,
    ensures
        r == tail_cells(unit_moves(input@), 2).len(),
{
    tail_visits(input, 2)
}

/// How many cells the tail of a ten-knot rope visits.
pub fn part2(input: &Vec<Step>) -> (r: usize)
    requires
        unit_moves(input@).len() < i32::MAX / 2,
    ensures
        r == tail_cells(unit_moves(input@), 10).len(),
{
    tail_visits(input, 10)
}

} // verus!
