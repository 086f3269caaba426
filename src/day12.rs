//! Hill climbing: fewest steps on a height map, climbing at most one level per step.
use vstd::prelude::*;
use crate::text::{lines_of, lines, views};

verus! {

/// The largest height or width of a map.
pub const MAX_SIDE: i32 = 1000;

/// Heights `0..=25` on a grid, row-major, with the start and end cells.
pub struct HeightMap {
    pub heights: Vec<u8>,
    pub width: i32,
    pub height: i32,
    pub start: (i32, i32),
    pub end: (i32, i32),
}

pub open spec fn pt(p: (i32, i32)) -> (int, int) {
    (p.0 as int, p.1 as int)
}

impl HeightMap {
    pub open spec fn wf(&self) -> bool {
        &&& 0 <= self.height <= MAX_SIDE
        &&& 0 <= self.width <= MAX_SIDE
        &&& self.heights@.len() == self.height * self.width
    }

    pub open spec fn inside(&self, p: (int, int)) -> bool {
        0 <= p.0 < self.height && 0 <= p.1 < self.width
    }

    /// The height at `p`, which must be inside.
    pub open spec fn level(&self, p: (int, int)) -> int {
        self.heights@[p.0 * self.width + p.1] as int
    }

    /// One may step from `a` to `b`: both inside, `b` at most one level higher.
    pub open spec fn can_step(&self, a: (int, int), b: (int, int)) -> bool {
        self.inside(a) && self.inside(b) && self.level(b) <= self.level(a) + 1
    }

    /// An edge from `a` to `b` of the searched graph: a step forward, or, when `reverse`,
    /// a step from `b` to `a`.
    pub open spec fn edge(&self, a: (int, int), b: (int, int), reverse: bool) -> bool {
        if reverse { self.can_step(b, a) } else { self.can_step(a, b) }
    }

    /// There is a walk of exactly `k` orthogonal edges from `src` to `p`.
    pub open spec fn walk(&self, src: (int, int), p: (int, int), k: int, reverse: bool) -> bool
        decreases k,
    {
        if k <= 0 {
            k == 0 && p == src
        } else {
            (self.walk(src, (p.0 - 1, p.1), k - 1, reverse) && self.edge((p.0 - 1, p.1), p, reverse)) || (self.walk(
                src,
                (p.0 + 1, p.1),
                k - 1,
                reverse,
            ) && self.edge((p.0 + 1, p.1), p, reverse)) || (self.walk(src, (p.0, p.1 - 1), k - 1, reverse)
                && self.edge((p.0, p.1 - 1), p, reverse)) || (self.walk(src, (p.0, p.1 + 1), k - 1, reverse)
                && self.edge((p.0, p.1 + 1), p, reverse))
        }
    }

    /// The goal of the search: the end cell, or, when `reverse`, any cell of height 0.
    pub open spec fn goal(&self, p: (int, int), reverse: bool) -> bool {
        if reverse { self.inside(p) && self.level(p) == 0 } else { p == pt(self.end) }
    }

    /// Some goal is `k` edges from `src`.
    pub open spec fn reaches_goal(&self, src: (int, int), k: int, reverse: bool) -> bool {
        exists|p: (int, int)| self.goal(p, reverse) && #[trigger] self.walk(src, p, k, reverse)
    }

    /// `k` is the fewest edges from `src` to a goal.
    pub open spec fn fewest(&self, src: (int, int), k: int, reverse: bool) -> bool {
        &&& 0 <= k
        &&& self.reaches_goal(src, k, reverse)
        &&& forall|j: int| 0 <= j < k ==> !#[trigger] self.reaches_goal(src, j, reverse)
    }

    /// An empty map.
    pub fn new() -> (r: HeightMap)
        ensures
            r.wf(),
            r.width == 0 && r.height == 0,
    {
        HeightMap { heights: Vec::new(), width: 0, height: 0, start: (0, 0), end: (0, 0) }
    }

    /// The height at `p`, or `None` outside the map.
    fn level_at(&self, p: (i32, i32)) -> (r: Option<u8>)
        requires
            self.wf(),
        ensures
            match r {
                Some(v) => self.inside(pt(p)) && v == self.level(pt(p)),
                None => !self.inside(pt(p)),
            },
    {
        if 0 <= p.0 && p.0 < self.height && 0 <= p.1 && p.1 < self.width {
            proof {
                lemma_index(self.height as int, self.width as int, p.0 as int, p.1 as int);
            }
            Some(self.heights[(p.0 as usize) * (self.width as usize) + (p.1 as usize)])
        } else {
            None
        }
    }
}

proof fn lemma_index(h: int, w: int, r: int, c: int)
    requires
        0 <= r < h,
        0 <= c < w,
        h <= MAX_SIDE,
        w <= MAX_SIDE,
    ensures
        0 <= r * w + c < h * w,
        h * w <= MAX_SIDE * MAX_SIDE,
{
    assert(0 <= r * w + c < h * w) by (nonlinear_arith)
        requires
            0 <= r < h,
            0 <= c < w,
    ;
    assert(h * w <= MAX_SIDE * MAX_SIDE) by (nonlinear_arith)
        requires
            0 <= r < h,
            0 <= c < w,
            h <= MAX_SIDE,
            w <= MAX_SIDE,
    ;
}

/// The four orthogonal neighbours of `from`.
pub fn neighbors(from: (i32, i32)) -> (r: Vec<(i32, i32)>)
    requires
        i32::MIN < from.0 < i32::MAX,
        i32::MIN < from.1 < i32::MAX,
    ensures
        r@.len() == 4,
        pt(r@[0]) == (from.0 - 1, from.1 as int),
        pt(r@[1]) == (from.0 + 1, from.1 as int),
        pt(r@[2]) == (from.0 as int, from.1 - 1),
        pt(r@[3]) == (from.0 as int, from.1 + 1),
{
    let r = vec![(from.0 - 1, from.1), (from.0 + 1, from.1), (from.0, from.1 - 1), (from.0, from.1 + 1)];
    r
}

/// The cells one edge away from `from` in the searched graph, at cost 1 each: cells one
/// may step to, or, when `reverse`, cells one may step from.
pub fn graph_steps(map: &HeightMap, from: (i32, i32), reverse: bool) -> (r: Vec<((i32, i32), i32)>)
    requires
        map.wf(),
    ensures
        forall|i: int|
            0 <= i < r@.len() ==> (#[trigger] r@[i]).1 == 1 && map.edge(pt(from), pt(r@[i].0), reverse) && (
            pt(r@[i].0) == (from.0 - 1, from.1 as int) || pt(r@[i].0) == (from.0 + 1, from.1 as int) || pt(r@[i].0)
                == (from.0 as int, from.1 - 1) || pt(r@[i].0) == (from.0 as int, from.1 + 1)),
        forall|q: (int, int)|
            (q == (from.0 - 1, from.1 as int) || q == (from.0 + 1, from.1 as int) || q == (from.0 as int, from.1 - 1)
                || q == (from.0 as int, from.1 + 1)) && map.edge(pt(from), q, reverse) ==> exists|i: int|
                0 <= i < r@.len() && pt((#[trigger] r@[i]).0) == q,
{
    let mut r: Vec<((i32, i32), i32)> = Vec::new();
    let here = match map.level_at(from) {
        Some(v) => v,
        None => {
            return r;
        },
    };
    let cands = neighbors(from);
    let mut k: usize = 0;
    let ghost mut found: Seq<int> = Seq::empty();
    while k < 4
        invariant
            map.wf(),
            map.inside(pt(from)),
            here == map.level(pt(from)),
            k <= 4,
            cands@.len() == 4,
            pt(cands@[0]) == (from.0 - 1, from.1 as int),
            pt(cands@[1]) == (from.0 + 1, from.1 as int),
            pt(cands@[2]) == (from.0 as int, from.1 - 1),
            pt(cands@[3]) == (from.0 as int, from.1 + 1),
            found.len() == k,
            forall|i: int|
                0 <= i < r@.len() ==> (#[trigger] r@[i]).1 == 1 && map.edge(pt(from), pt(r@[i].0), reverse) && (
                pt(r@[i].0) == (from.0 - 1, from.1 as int) || pt(r@[i].0) == (from.0 + 1, from.1 as int) || pt(
                    r@[i].0,
                ) == (from.0 as int, from.1 - 1) || pt(r@[i].0) == (from.0 as int, from.1 + 1)),
            forall|j: int|
                0 <= j < k && map.edge(pt(from), pt(cands@[j]), reverse) ==> 0 <= #[trigger] found[j] < r@.len()
                    && pt(r@[found[j]].0) == pt(cands@[j]),
        decreases 4 - k,
    {
        let q = cands[k];
        match map.level_at(q) {
            Some(there) => {
                let ok = if reverse { here as u32 <= there as u32 + 1 } else { there as u32 <= here as u32 + 1 };
                if ok {
                    r.push((q, 1));
                }
            },
            None => {},
        }
        proof {
            found = found.push((r@.len() - 1) as int);
        }
        k += 1;
    }
    assert forall|q: (int, int)|
        (q == (from.0 - 1, from.1 as int) || q == (from.0 + 1, from.1 as int) || q == (from.0 as int, from.1 - 1) || q
            == (from.0 as int, from.1 + 1)) && map.edge(pt(from), q, reverse) implies exists|i: int|
        0 <= i < r@.len() && pt((#[trigger] r@[i]).0) == q by {
        let j: int = if q == pt(cands@[0]) {
            0
        } else if q == pt(cands@[1]) {
            1
        } else if q == pt(cands@[2]) {
            2
        } else {
            3
        };
        assert(pt(r@[found[j]].0) == q);
    }
    r
}

/// The cells one may step to from `from`, at cost 1 each.
pub fn next_steps(map: &HeightMap, from: (i32, i32)) -> (r: Vec<((i32, i32), i32)>)
    requires
        map.wf(),
    ensures
        forall|i: int| 0 <= i < r@.len() ==> (#[trigger] r@[i]).1 == 1 && map.can_step(pt(from), pt(r@[i].0)),
{
    graph_steps(map, from, false)
}

/// The cells from which one may step to `to`, at cost 1 each.
pub fn prev_steps(map: &HeightMap, to: (i32, i32)) -> (r: Vec<((i32, i32), i32)>)
    requires
        map.wf(),
    ensures
        forall|i: int| 0 <= i < r@.len() ==> (#[trigger] r@[i]).1 == 1 && map.can_step(pt(r@[i].0), pt(to)),
{
    graph_steps(map, to, true)
}

/// Whether `p` is a goal of the search.
pub fn is_goal(map: &HeightMap, p: (i32, i32), reverse: bool) -> (r: bool)
    requires
        map.wf(),
    ensures
        r == map.goal(pt(p), reverse),
{
    if reverse {
        match map.level_at(p) {
            Some(v) => v == 0,
            None => false,
        }
    } else {
        p.0 == map.end.0 && p.1 == map.end.1
    }
}

/// Relies on `pathfinding::directed::dijkstra::dijkstra`, which returns a least-cost path
/// from the start node to a node accepted by `success`, with its cost, or `None` when no
/// such node can be reached. Here the successors are those of `graph_steps` (cost 1 each)
/// and success is `is_goal`; only the cost is kept.
#[verifier::external_body]
fn fewest_steps(map: &HeightMap, from: (i32, i32), reverse: bool) -> (r: Option<i32>)
    requires
        map.wf(),
    ensures
        match r {
            Some(k) => map.fewest(pt(from), k as int, reverse),
            None => forall|k: int| 0 <= k ==> !#[trigger] map.reaches_goal(pt(from), k, reverse),
        },
{
    pathfinding::directed::dijkstra::dijkstra(
        &from,
        |p: &(i32, i32)| graph_steps(map, *p, reverse),
        |p: &(i32, i32)| is_goal(map, *p, reverse),
    ).map(|found| found.1)
}

/// The fewest steps from the start to the end; `None` when the end cannot be reached.
pub fn part1(input: &HeightMap) -> (r: Option<i32>)
    requires
        input.wf(),
    ensures
        match r {
            Some(k) => input.fewest(pt(input.start), k as int, false),
            None => forall|k: int| 0 <= k ==> !#[trigger] input.reaches_goal(pt(input.start), k, false),
        },
{
    fewest_steps(input, input.start, false)
}

/// The fewest steps to the end from any cell of height 0, searched backwards from the
/// end; `None` when no such cell leads there.
pub fn part2(input: &HeightMap) -> (r: Option<i32>)
    requires
        input.wf(),
    ensures
        match r {
            Some(k) => input.fewest(pt(input.end), k as int, true),
            None => forall|k: int| 0 <= k ==> !#[trigger] input.reaches_goal(pt(input.end), k, true),
        },
{
    fewest_steps(input, input.end, true)
}


pub open spec fn valid_char(b: u8) -> bool {
    (97 <= b <= 122) || b == 83 || b == 69
}

/// The height a map letter stands for: `S` is `a`, `E` is `z`.
pub open spec fn char_level(b: u8) -> int {
    if b == 83 {
        0
    } else if b == 69 {
        25
    } else {
        b - 97
    }
}

/// The byte at `p` in the lines `ls`.
pub open spec fn at(ls: Seq<Seq<u8>>, p: (int, int)) -> u8 {
    ls[p.0][p.1]
}

pub open spec fn in_lines(ls: Seq<Seq<u8>>, p: (int, int)) -> bool {
    0 <= p.0 < ls.len() && 0 <= p.1 < ls[0].len()
}

/// `ls` is a map: one or more lines of the same length, at most `MAX_SIDE` each way, of
/// letters, `S` and `E`, with exactly one `S` and one `E`.
pub open spec fn is_map(ls: Seq<Seq<u8>>) -> bool {
    &&& 1 <= ls.len() <= MAX_SIDE
    &&& ls[0].len() <= MAX_SIDE
    &&& forall|r: int| 0 <= r < ls.len() ==> (#[trigger] ls[r]).len() == ls[0].len()
    &&& forall|p: (int, int)| in_lines(ls, p) ==> valid_char(#[trigger] at(ls, p))
    &&& exists|p: (int, int)| in_lines(ls, p) && #[trigger] at(ls, p) == 83
    &&& exists|p: (int, int)| in_lines(ls, p) && #[trigger] at(ls, p) == 69
    &&& forall|p: (int, int), q: (int, int)|
        in_lines(ls, p) && in_lines(ls, q) && #[trigger] at(ls, p) == 83 && #[trigger] at(ls, q) == 83 ==> p == q
    &&& forall|p: (int, int), q: (int, int)|
        in_lines(ls, p) && in_lines(ls, q) && #[trigger] at(ls, p) == 69 && #[trigger] at(ls, q) == 69 ==> p == q
}

/// Cells scanned before `(row, col)` in row-major order.
pub open spec fn before(p: (int, int), row: int, col: int) -> bool {
    p.0 < row || (p.0 == row && p.1 < col)
}

/// The map drawn by `input`; `None` unless `is_map` holds of its lines.
pub fn generator(input: &[u8]) -> (r: Option<HeightMap>)
    ensures
        match r {
            Some(m) => {
                let ls = lines(input@);
                &&& is_map(ls)
                &&& m.wf()
                &&& m.height == ls.len() && m.width == ls[0].len()
                &&& forall|p: (int, int)| in_lines(ls, p) ==> m.level(p) == char_level(#[trigger] at(ls, p))
                &&& in_lines(ls, pt(m.start)) && at(ls, pt(m.start)) == 83
                &&& in_lines(ls, pt(m.end)) && at(ls, pt(m.end)) == 69
            },
            None => !is_map(lines(input@)),
        },
{
    let rows = lines_of(input);
    let ghost ls = views(rows@);
    if rows.len() == 0 || rows.len() > MAX_SIDE as usize || rows[0].len() > MAX_SIDE as usize {
        return None;
    }
    let width = rows[0].len();
    let mut heights: Vec<u8> = Vec::new();
    let mut start: Option<(i32, i32)> = None;
    let mut end: Option<(i32, i32)> = None;
    let mut row: usize = 0;
    while row < rows.len()
        invariant
            ls == views(rows@),
            ls == lines(input@),
            1 <= ls.len() <= MAX_SIDE,
            width == ls[0].len() <= MAX_SIDE,
            row <= ls.len(),
            heights@.len() == row * width,
            forall|r: int| 0 <= r < row ==> (#[trigger] ls[r]).len() == width,
            forall|p: (int, int)| in_lines(ls, p) && before(p, row as int, 0) ==> valid_char(#[trigger] at(ls, p)),
            forall|p: (int, int)|
                in_lines(ls, p) && before(p, row as int, 0) ==> #[trigger] heights@[p.0 * width + p.1] == char_level(
                    at(ls, p),
                ),
            match start {
                Some(s) => in_lines(ls, pt(s)) && before(pt(s), row as int, 0) && at(ls, pt(s)) == 83 && forall|p: (int, int)|
                    in_lines(ls, p) && before(p, row as int, 0) && #[trigger] at(ls, p) == 83 ==> p == pt(s),
                None => forall|p: (int, int)| in_lines(ls, p) && before(p, row as int, 0) ==> #[trigger] at(ls, p) != 83,
            },
            match end {
                Some(s) => in_lines(ls, pt(s)) && before(pt(s), row as int, 0) && at(ls, pt(s)) == 69 && forall|p: (int, int)|
                    in_lines(ls, p) && before(p, row as int, 0) && #[trigger] at(ls, p) == 69 ==> p == pt(s),
                None => forall|p: (int, int)| in_lines(ls, p) && before(p, row as int, 0) ==> #[trigger] at(ls, p) != 69,
            },
        decreases ls.len() - row,
    {
        let line = &rows[row];
        assert(line@ == ls[row as int]);
        if line.len() != width {
            assert(ls[row as int].len() != ls[0].len());
            return None;
        }
        let mut col: usize = 0;
        while col < width
            invariant
                ls == lines(input@),
                1 <= ls.len() <= MAX_SIDE,
                width == ls[0].len() <= MAX_SIDE,
                row < ls.len(),
                line@ == ls[row as int],
                line@.len() == width,
                col <= width,
                heights@.len() == row * width + col,
                forall|r: int| 0 <= r <= row ==> (#[trigger] ls[r]).len() == width,
                forall|p: (int, int)| in_lines(ls, p) && before(p, row as int, col as int) ==> valid_char(#[trigger] at(ls, p)),
                forall|p: (int, int)|
                    in_lines(ls, p) && before(p, row as int, col as int) ==> #[trigger] heights@[p.0 * width + p.1]
                        == char_level(at(ls, p)),
                match start {
                    Some(s) => in_lines(ls, pt(s)) && before(pt(s), row as int, col as int) && at(ls, pt(s)) == 83 && forall|
                        p: (int, int),
                    |
                        in_lines(ls, p) && before(p, row as int, col as int) && #[trigger] at(ls, p) == 83 ==> p == pt(s),
                    None => forall|p: (int, int)|
                        in_lines(ls, p) && before(p, row as int, col as int) ==> #[trigger] at(ls, p) != 83,
                },
                match end {
                    Some(s) => in_lines(ls, pt(s)) && before(pt(s), row as int, col as int) && at(ls, pt(s)) == 69 && forall|
                        p: (int, int),
                    |
                        in_lines(ls, p) && before(p, row as int, col as int) && #[trigger] at(ls, p) == 69 ==> p == pt(s),
                    None => forall|p: (int, int)|
                        in_lines(ls, p) && before(p, row as int, col as int) ==> #[trigger] at(ls, p) != 69,
                },
            decreases width - col,
        {
            let b = line[col];
            let ghost here = (row as int, col as int);
            assert(at(ls, here) == b);
            if !((97 <= b && b <= 122) || b == 83 || b == 69) {
                assert(!valid_char(at(ls, here)));
                return None;
            }
            let level: u8 = if b == 83 {
                if start.is_some() {
                    return None;
                }
                start = Some((row as i32, col as i32));
                0
            } else if b == 69 {
                if end.is_some() {
                    return None;
                }
                end = Some((row as i32, col as i32));
                25
            } else {
                b - 97
            };
            let ghost old_heights = heights@;
            proof {
                lemma_index(ls.len() as int, width as int, row as int, col as int);
            }
            heights.push(level);
            assert forall|p: (int, int)|
                in_lines(ls, p) && before(p, row as int, col + 1) implies #[trigger] heights@[p.0 * width + p.1]
                == char_level(at(ls, p)) by {
                if p != here {
                    lemma_index(row as int + 1, width as int, p.0, p.1);
                    assert(p.0 * width + p.1 < row * width + col) by (nonlinear_arith)
                        requires
                            before(p, row as int, col as int),
                            0 <= p.1 < width,
                    ;
                    assert(heights@[p.0 * width + p.1] == old_heights[p.0 * width + p.1]);
                }
            }
            col += 1;
        }
        assert((row + 1) * width == row * width + width) by (nonlinear_arith);
        row += 1;
    }
    match (start, end) {
        (Some(s), Some(e)) => {
            proof {
                lemma_index(ls.len() as int, width as int, 0, 0);
            }
            Some(HeightMap { heights, width: width as i32, height: rows.len() as i32, start: s, end: e })
        },
        _ => None,
    }
}

} // verus!
